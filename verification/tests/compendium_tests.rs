use hearthwork::compendium::{name_le_exec, sort_by_name, CompendiumEntry};

fn entry(name: &str, stack_size: u32) -> CompendiumEntry {
    CompendiumEntry { name: name.to_string(), stack_size }
}

#[test]
fn compendium_is_ordered_by_name() {
    let sorted = sort_by_name(vec![entry("Sack", 10), entry("Doll", 1), entry("Quintessence", 5), entry("Doll", 2)]);
    let got: Vec<(&str, u32)> = sorted.iter().map(|e| (e.name.as_str(), e.stack_size)).collect();
    assert_eq!(got[0].0, "Doll");
    assert_eq!(got[1].0, "Doll");
    assert_eq!(&got[2..], &[("Quintessence", 5), ("Sack", 10)]);
    let mut sizes: Vec<u32> = got[..2].iter().map(|g| g.1).collect();
    sizes.sort();
    assert_eq!(sizes, vec![1, 2]);
}

#[test]
fn names_compare_like_strings() {
    let pairs = [("a", "b"), ("ab", "a"), ("", "x"), ("Zebra", "apple"), ("äpfel", "zebra"), ("same", "same")];
    for (a, b) in pairs {
        assert_eq!(name_le_exec(&a.to_string(), &b.to_string()), a <= b, "{a} <= {b}");
    }
}

#[test]
fn empty_compendium() {
    assert!(sort_by_name(vec![]).is_empty());
}
