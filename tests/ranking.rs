use std::cmp::Ordering;

use launcher::collator::{compare_keys, Collator};
use launcher::index::{EntryIndex, LookupError, RawDescriptor};
use launcher::rank::match_tier;

fn shown(name: &str, handle: u64) -> RawDescriptor {
    RawDescriptor {
        should_show: true,
        display_name: Some(name.to_string()),
        locale_key: Vec::new(),
        icon_ref: None,
        launch_handle: handle,
    }
}

fn keyed(name: &str, key: &[u8], handle: u64) -> RawDescriptor {
    RawDescriptor {
        locale_key: key.to_vec(),
        ..shown(name, handle)
    }
}

fn byte_index(names: &[&str]) -> EntryIndex {
    let ds: Vec<RawDescriptor> = names
        .iter()
        .enumerate()
        .map(|(i, n)| shown(n, 100 + i as u64))
        .collect();
    EntryIndex::build(&ds, Collator::new(false))
}

fn names_of(index: &EntryIndex, ids: &[usize]) -> Vec<String> {
    ids.iter()
        .map(|&id| index.get(id).unwrap().display_name.clone())
        .collect()
}

fn all_names(index: &EntryIndex) -> Vec<String> {
    index.all().iter().map(|r| r.display_name.clone()).collect()
}

fn chars(s: &str) -> Vec<char> {
    s.chars().collect()
}

fn sample() -> EntryIndex {
    byte_index(&["Firefox", "Files", "GIMP", "Terminal"])
}

#[test]
fn prefix_query_orders_by_collation() {
    let index = sample();
    let r = index.rank("fi");
    assert_eq!(names_of(&index, &r), vec!["Files", "Firefox"]);
}

#[test]
fn query_selects_single_record() {
    let index = sample();
    let r = index.rank("term");
    assert_eq!(names_of(&index, &r), vec!["Terminal"]);
}

#[test]
fn query_without_match_gives_empty_result() {
    let index = sample();
    assert!(index.rank("zzz").is_empty());
}

#[test]
fn lookup_of_unknown_id_fails() {
    let index = sample();
    assert_eq!(index.len(), 4);
    assert!(matches!(index.get(4), Err(LookupError::NotFound { id: 4 })));
    assert_eq!(index.launch_handle(99), Err(LookupError::NotFound { id: 99 }));
    assert!(index.get(3).is_ok());
}

#[test]
fn empty_query_is_collated_order() {
    let index = sample();
    assert_eq!(index.rank(""), index.all_ids());
    let ids: Vec<usize> = index.all().iter().map(|r| r.id).collect();
    assert_eq!(index.rank(""), ids);
    assert_eq!(all_names(&index), vec!["Files", "Firefox", "GIMP", "Terminal"]);
}

#[test]
fn results_contain_query_and_others_are_absent() {
    let index = byte_index(&["Firefox", "Files", "GIMP", "Terminal", "Settings"]);
    let r = index.rank("E");
    for &id in &r {
        assert!(index.get(id).unwrap().search_key.iter().collect::<String>().contains('e'));
    }
    for record in index.all() {
        let has = record.search_key.contains(&'e');
        assert_eq!(r.contains(&record.id), has);
    }
    assert_eq!(names_of(&index, &r), vec!["Files", "Firefox", "Settings", "Terminal"]);
}

#[test]
fn tiers_rank_before_collation() {
    let index = byte_index(&["Acode", "Bar Code", "Code", "Code Tool"]);
    assert_eq!(all_names(&index), vec!["Acode", "Bar Code", "Code", "Code Tool"]);
    let r = index.rank("code");
    assert_eq!(names_of(&index, &r), vec!["Code", "Code Tool", "Bar Code", "Acode"]);
}

#[test]
fn ranking_twice_gives_the_same_result() {
    let index = byte_index(&["Acode", "Bar Code", "Code", "Code Tool", "Files"]);
    assert_eq!(index.rank("co"), index.rank("co"));
    assert_eq!(index.rank("co"), index.rank("CO"));
}

#[test]
fn byte_wise_fallback_orders_by_code_point() {
    let index = byte_index(&["Étude", "etude", "Zed"]);
    assert_eq!(all_names(&index), vec!["Zed", "etude", "Étude"]);
}

#[test]
fn locale_keys_place_accented_names_by_base_letter() {
    let ds = vec![
        keyed("Étude", b"etude\x02", 1),
        keyed("etude", b"etude\x01", 2),
        keyed("Zed", b"zed\x01", 3),
    ];
    let index = EntryIndex::build(&ds, Collator::new(true));
    assert_eq!(all_names(&index), vec!["etude", "Étude", "Zed"]);
}

#[test]
fn equal_keys_keep_discovery_order() {
    let ds = vec![keyed("Beta", b"k", 1), keyed("Alpha", b"k", 2), keyed("Gamma", b"a", 3)];
    let index = EntryIndex::build(&ds, Collator::Locale);
    assert_eq!(all_names(&index), vec!["Gamma", "Beta", "Alpha"]);
    let r = index.rank("a");
    assert_eq!(names_of(&index, &r), vec!["Alpha", "Gamma", "Beta"]);
    let r = index.rank("ta");
    assert_eq!(names_of(&index, &r), vec!["Beta"]);
    let r = index.rank("l");
    assert_eq!(names_of(&index, &r), vec!["Alpha"]);
}

#[test]
fn build_drops_hidden_and_unnamed_descriptors() {
    let mut hidden = shown("Hidden", 1);
    hidden.should_show = false;
    let mut unnamed = shown("x", 2);
    unnamed.display_name = None;
    let empty = shown("", 3);
    let ds = vec![hidden, shown("Kept", 4), unnamed, empty, shown("Also", 5)];
    let index = EntryIndex::build(&ds, Collator::ByteWise);
    assert_eq!(index.len(), 2);
    let kept = index.get(0).unwrap();
    assert_eq!(kept.display_name, "Kept");
    assert_eq!(kept.launch_handle, 4);
    assert_eq!(index.get(1).unwrap().display_name, "Also");
    assert_eq!(index.launch_handle(1), Ok(5));
    assert_eq!(all_names(&index), vec!["Also", "Kept"]);
}

#[test]
fn empty_index_is_no_failure() {
    let index = EntryIndex::build(&Vec::new(), Collator::ByteWise);
    assert!(index.is_empty());
    assert!(index.rank("").is_empty());
    assert!(index.rank("a").is_empty());
    assert!(index.all().is_empty());
}

#[test]
fn search_key_is_case_folded() {
    let index = sample();
    let gimp = index.all()[2];
    assert_eq!(gimp.display_name, "GIMP");
    assert_eq!(gimp.search_key, chars("gimp"));
    assert_eq!(names_of(&index, &index.rank("GiM")), vec!["GIMP"]);
}

#[test]
fn byte_wise_sort_key_is_utf8() {
    let c = Collator::ByteWise;
    assert_eq!(c.sort_key(&"Éa".to_string(), &vec![9]), vec![0xC3, 0x89, b'a']);
    assert_eq!(Collator::Locale.sort_key(&"Éa".to_string(), &vec![9]), vec![9]);
}

#[test]
fn collator_compares_names() {
    let empty = Vec::new();
    let byte = Collator::new(false);
    assert_eq!(byte, Collator::ByteWise);
    assert_eq!(byte.compare(&"Zed".to_string(), &empty, &"etude".to_string(), &empty), Ordering::Less);
    assert_eq!(byte.compare(&"a".to_string(), &empty, &"a".to_string(), &empty), Ordering::Equal);
    let locale = Collator::new(true);
    assert_eq!(locale, Collator::Locale);
    assert_eq!(
        locale.compare(&"Zed".to_string(), &b"z".to_vec(), &"etude".to_string(), &b"e".to_vec()),
        Ordering::Greater
    );
}

#[test]
fn keys_compare_lexicographically() {
    assert_eq!(compare_keys(&vec![1, 2], &vec![1, 2, 0]), Ordering::Less);
    assert_eq!(compare_keys(&vec![1, 3], &vec![1, 2, 9]), Ordering::Greater);
    assert_eq!(compare_keys(&vec![], &vec![]), Ordering::Equal);
    assert_eq!(compare_keys(&vec![0], &vec![]), Ordering::Greater);
}

#[test]
fn match_tier_values() {
    assert_eq!(match_tier(&chars("code"), &chars("code")), 3);
    assert_eq!(match_tier(&chars("code tool"), &chars("code")), 2);
    assert_eq!(match_tier(&chars("bar code"), &chars("code")), 1);
    assert_eq!(match_tier(&chars("bar-code"), &chars("code")), 1);
    assert_eq!(match_tier(&chars("acode"), &chars("code")), 0);
    assert_eq!(match_tier(&chars("café code"), &chars("é")), 0);
    assert_eq!(match_tier(&chars("x"), &chars("code")), -1);
    assert_eq!(match_tier(&chars("abc"), &chars("")), 2);
    assert_eq!(match_tier(&chars("a élan"), &chars("élan")), 1);
}

#[test]
fn rank_folded_takes_a_folded_query() {
    let index = sample();
    assert_eq!(index.rank_folded(&chars("fi")), index.rank("FI"));
    assert!(index.rank_folded(&chars("FI")).is_empty());
    assert_eq!(index.rank_folded(&Vec::new()), index.all_ids());
}

#[test]
fn icon_requests_follow_collated_order() {
    let mut a = shown("Zeta", 1);
    a.icon_ref = Some(7);
    let b = shown("Beta", 2);
    let mut c = shown("Alpha", 3);
    c.icon_ref = Some(9);
    let index = EntryIndex::build(&vec![a, b, c], Collator::ByteWise);
    assert_eq!(index.icon_requests(), vec![(2, 9), (0, 7)]);
}
