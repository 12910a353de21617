use isaac_unlocker::unlocker::{Achievement, SaveSlot, TypeFilter, Unlocker};

const ACH: &str = "Magdalene\nCain\nJudas\nThe Womb\n";
const ITEMS: &str = "Sad Onion\nInner Eye\nSpoon Bender\nCricket's Head\n";

fn slot(achievements: &[bool], items: &[bool]) -> Option<SaveSlot> {
    Some(SaveSlot { achievements: achievements.to_vec(), items: items.to_vec() })
}

fn model() -> Unlocker {
    let saves = vec![
        slot(&[true, false, true, false], &[false, false, true, true]),
        None,
        slot(&[false, false, false, true], &[true, true, true, true]),
    ];
    Unlocker::new(saves, ACH, ITEMS, 4, 4)
}

fn started() -> Unlocker {
    let mut u = model();
    u.init(1);
    u
}

#[test]
fn new_reads_the_names_and_shows_nothing() {
    let u = model();
    assert_eq!(u.achievement_names, vec!["Magdalene", "Cain", "Judas", "The Womb"]);
    assert_eq!(u.item_names.len(), 4);
    assert!(u.achievements.is_empty());
    assert!(u.indexes.is_empty());
}

#[test]
fn init_lists_existing_saves_and_shows_everything() {
    let mut u = model();
    assert_eq!(u.init(1), vec![1, 3]);
    assert_eq!(
        u.achievements,
        vec![
            Achievement { id: 0, unlocked: true },
            Achievement { id: 1, unlocked: false },
            Achievement { id: 2, unlocked: true },
            Achievement { id: 3, unlocked: false },
        ]
    );
    assert_eq!(u.indexes, vec![0, 1, 2, 3]);
    assert_eq!(u.items_indexes, vec![0, 1, 2, 3]);
    assert_eq!(u.type_achievement_mask, vec![0, 1, 2, 3]);
    assert_eq!(u.search_items_mask, vec![0, 1, 2, 3]);
}

#[test]
fn type_filter_names() {
    assert_eq!(TypeFilter::from_name("All"), Some(TypeFilter::All));
    assert_eq!(TypeFilter::from_name("Locked"), Some(TypeFilter::Locked));
    assert_eq!(TypeFilter::from_name("Unlocked"), Some(TypeFilter::Unlocked));
    assert_eq!(TypeFilter::from_name("locked"), None);
}

#[test]
fn type_filter_splits_locked_and_unlocked() {
    let u = started();
    assert_eq!(u.type_filter(TypeFilter::Locked), (vec![1, 3], vec![0, 1]));
    assert_eq!(u.type_filter(TypeFilter::Unlocked), (vec![0, 2], vec![2, 3]));
    assert_eq!(u.type_filter(TypeFilter::All), (vec![0, 1, 2, 3], vec![0, 1, 2, 3]));
}

#[test]
fn locked_and_unlocked_partition_the_list() {
    let u = started();
    let (mut locked, _) = u.type_filter(TypeFilter::Locked);
    let (unlocked, _) = u.type_filter(TypeFilter::Unlocked);
    assert!(locked.iter().all(|x| !unlocked.contains(x)));
    locked.extend(unlocked);
    locked.sort();
    assert_eq!(locked, vec![0, 1, 2, 3]);
}

#[test]
fn type_select_intersects_with_search() {
    let mut u = started();
    u.search("a");
    // Magdalene, Cain, Judas; Sad Onion, Spoon Bender, Cricket's Head
    assert_eq!(u.search_achievement_mask, vec![0, 1, 2]);
    u.type_select(TypeFilter::Locked);
    assert_eq!(u.type_achievement_mask, vec![1, 3]);
    assert_eq!(u.indexes, vec![1]);
    assert_eq!(u.items_indexes, vec![0]);
}

#[test]
fn search_ignores_case() {
    let mut u = started();
    u.search("WOMB");
    assert_eq!(u.search_achievement_mask, vec![3]);
    assert_eq!(u.indexes, vec![3]);
}

#[test]
fn search_without_match_changes_nothing() {
    let mut u = started();
    u.search("zzz");
    assert_eq!(u.search_achievement_mask, vec![0, 1, 2, 3]);
    assert_eq!(u.indexes, vec![0, 1, 2, 3]);
    assert_eq!(u.items_indexes, vec![0, 1, 2, 3]);
}

#[test]
fn search_matches_items_and_achievements_separately() {
    let mut u = started();
    u.search("onion");
    assert_eq!(u.search_achievement_mask, vec![0, 1, 2, 3]);
    assert_eq!(u.search_items_mask, vec![0]);
    assert_eq!(u.items_indexes, vec![0]);
}

#[test]
fn empty_search_shows_every_line() {
    let mut u = started();
    u.range_change(2, 3);
    u.search("");
    assert_eq!(u.search_achievement_mask, vec![0, 1, 2, 3]);
    assert_eq!(u.indexes, vec![0, 1, 2, 3]);
}

#[test]
fn range_change_selects_positions() {
    let mut u = started();
    u.range_change(2, 3);
    assert_eq!(u.indexes, vec![1, 2]);
    assert_eq!(u.items_indexes, vec![1, 2]);
    assert_eq!(u.search_achievement_mask, vec![1, 2]);
    u.type_select(TypeFilter::Unlocked);
    assert_eq!(u.indexes, vec![2]);
}

#[test]
fn range_change_stores_each_range_in_the_other_search_mask() {
    let saves = vec![slot(&[false; 3], &[false; 5])];
    let mut u = Unlocker::new(saves, "a\nb\nc", "1\n2\n3\n4\n5", 3, 5);
    u.init(1);
    u.range_change(1, 5);
    assert_eq!(u.search_items_mask, vec![0, 1, 2]);
    assert_eq!(u.search_achievement_mask, vec![0, 1, 2, 3, 4]);
    assert_eq!(u.indexes, vec![0, 1, 2]);
    assert_eq!(u.items_indexes, vec![0, 1, 2, 3, 4]);
}

#[test]
fn select_save_reloads_lists_and_keeps_filter() {
    let mut u = started();
    u.select_save(3, TypeFilter::Locked);
    assert_eq!(u.achievements[3], Achievement { id: 3, unlocked: true });
    assert_eq!(u.indexes, vec![0, 1, 2]);
    assert_eq!(u.items_indexes, Vec::<i32>::new());
}

#[test]
fn unlock_writes_the_shown_states() {
    let mut u = started();
    u.set_achievement_unlocked(1, true);
    assert_eq!(u.unlock(), vec![true, true, true, false]);
}

#[test]
fn unlock_without_edits_writes_the_save_back() {
    let u = started();
    assert_eq!(u.unlock(), vec![true, false, true, false]);
}

#[test]
fn unlock_all_sets_every_flag() {
    let mut u = started();
    assert_eq!(u.unlock_all(), vec![true, true, true, true]);
    assert!(u.achievements.iter().all(|a| a.unlocked));
    assert_eq!(u.indexes, vec![0, 1, 2, 3]);
}

#[test]
fn shown_numbers_follow_the_masks_after_each_step() {
    let mut u = started();
    u.search("e");
    u.type_select(TypeFilter::Unlocked);
    u.range_change(1, 3);
    u.select_save(3, TypeFilter::Locked);
    let expect: Vec<i32> = u
        .type_achievement_mask
        .iter()
        .copied()
        .filter(|x| u.search_achievement_mask.contains(x))
        .collect();
    assert_eq!(u.indexes, expect);
}
