use protover::{compute_for_old_tor, legacy_cutoffs};

#[test]
fn cutoffs_are_newest_first() {
    assert_eq!(
        ["0.2.9.3-alpha", "0.2.9.1-alpha", "0.2.7.5", "0.2.4.19"],
        legacy_cutoffs()
    );
}

#[test]
fn release_that_advertises_gets_nothing() {
    assert_eq!("", compute_for_old_tor([true, true, true, true]));
    assert_eq!("", compute_for_old_tor([true, false, false, false]));
}

#[test]
fn release_older_than_all_gets_nothing() {
    assert_eq!("", compute_for_old_tor([false, false, false, false]));
}

#[test]
fn first_row_that_holds_decides() {
    assert_eq!(
        "Cons=1-2 Desc=1-2 DirCache=1 HSDir=1 HSIntro=3 HSRend=1-2 \
         Link=1-4 LinkAuth=1 Microdesc=1-2 Relay=1-2",
        compute_for_old_tor([false, true, true, true])
    );
    assert_eq!(
        "Cons=1-2 Desc=1-2 DirCache=1 HSDir=1 HSIntro=3 HSRend=1 \
         Link=1-4 LinkAuth=1 Microdesc=1-2 Relay=1-2",
        compute_for_old_tor([false, false, true, true])
    );
    assert_eq!(
        "Cons=1 Desc=1 DirCache=1 HSDir=1 HSIntro=3 HSRend=1 \
         Link=1-4 LinkAuth=1 Microdesc=1 Relay=1-2",
        compute_for_old_tor([false, false, false, true])
    );
    assert_eq!(
        "Cons=1-2 Desc=1-2 DirCache=1 HSDir=1 HSIntro=3 HSRend=1-2 \
         Link=1-4 LinkAuth=1 Microdesc=1-2 Relay=1-2",
        compute_for_old_tor([false, true, false, false])
    );
}
