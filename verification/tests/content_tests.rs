use termprompt::inventory::Inventory;
use termprompt::localization::{Language, LanguageList, TranslationID, Translator};
use termprompt::registries::{Item, Recipe, RecipeComponent, Registrable, Tag, TagType, ID};

fn item(ns: &str, name: &str, stack: u32) -> Item {
    Item::new(ID::new(ns, name), vec![], stack)
}

#[test]
fn id_construction_and_rendering() {
    let id = ID::new("ruztex", "coal");
    assert_eq!(id.render(), "ruztex:coal");
    assert_eq!(id.namespace, "ruztex");
    assert_eq!(id.name, "coal");
}

#[test]
fn id_identifier_validation() {
    assert!(ID::is_valid_identifier("coal", Some((1, 16)), false));
    assert!(ID::is_valid_identifier("coal_ore", Some((1, 16)), true));
    assert!(!ID::is_valid_identifier("coal_ore", Some((1, 16)), false));
    assert!(!ID::is_valid_identifier("", Some((1, 16)), true));
    assert!(!ID::is_valid_identifier("aaaaaaaaaaaaaaaaa", Some((1, 16)), true));
    assert!(ID::is_valid_identifier("aaaaaaaaaaaaaaaaa", None, true));
    assert!(!ID::is_valid_identifier("Coal", None, false));
}

#[test]
fn tag_enters_each_entity_once() {
    let mut tag = Tag::new(ID::new("ruz", "fuel"));
    tag.add(&TagType::Item, &ID::new("ruztex", "coal"));
    tag.add(&TagType::Item, &ID::new("ruztex", "coal"));
    tag.add(&TagType::Block, &ID::new("ruztex", "coal"));
    assert_eq!(tag.entries.len(), 2);
    assert_eq!(tag.id().render(), "ruz:fuel");
}

#[test]
fn registrable_exposes_ids() {
    let it = item("ruztex", "coal", 64);
    assert_eq!(it.id().render(), "ruztex:coal");
    assert_eq!(it.stack_size(), 64);
    assert!(it.tags().is_empty());
    let recipe = Recipe::new(
        ID::new("ruztex", "torch"),
        vec![RecipeComponent::new(ID::new("ruztex", "coal"), 1)],
        vec![RecipeComponent::new(ID::new("ruztex", "torch"), 4)],
    );
    assert_eq!(recipe.id().render(), "ruztex:torch");
    assert_eq!(recipe.ingredients().len(), 1);
    assert_eq!(recipe.results().len(), 1);
}

#[test]
fn inventory_fills_stacks_then_opens_new_ones() {
    let mut inv = Inventory::new(Some(10));
    let coal = item("ruztex", "coal", 64);
    assert!(inv.add_item(coal.clone(), 100));
    assert_eq!(inv.slots.len(), 2);
    assert_eq!(inv.slots[0].count, 64);
    assert_eq!(inv.slots[1].count, 36);
    assert!(inv.add_item(coal.clone(), 28));
    assert_eq!(inv.slots.len(), 2);
    assert_eq!(inv.slots[1].count, 64);
    assert_eq!(inv.total_items(), 128);
    assert_eq!(inv.total_items_of(&coal), 128);
    assert!(inv.has_item(&coal, 128));
    assert!(!inv.has_item(&coal, 129));
}

#[test]
fn inventory_add_fails_when_full_but_keeps_partial_progress() {
    let mut inv = Inventory::new(None);
    let coal = item("ruztex", "coal", 64);
    // 32 slots of 64 hold 2048 at most.
    assert!(inv.add_item(coal.clone(), 2048));
    assert!(!inv.add_item(coal.clone(), 1));
    assert_eq!(inv.total_items_of(&coal), 2048);
}

#[test]
fn inventory_remove_drains_and_drops_empty_slots() {
    let mut inv = Inventory::new(None);
    let coal = item("ruztex", "coal", 64);
    let iron = item("ruztex", "iron", 64);
    assert!(inv.add_item(coal.clone(), 100));
    assert!(inv.add_item(iron.clone(), 10));
    assert!(inv.remove_item(&coal, 70));
    assert_eq!(inv.total_items_of(&coal), 30);
    assert_eq!(inv.total_items_of(&iron), 10);
    assert_eq!(inv.slots.len(), 2);
    assert!(!inv.remove_item(&coal, 31));
    assert_eq!(inv.total_items_of(&coal), 0);
    assert_eq!(inv.slots.len(), 1);
}

#[test]
fn inventory_renders_a_sorted_table() {
    let mut inv = Inventory::new(Some(10));
    inv.add_item(item("ruztex", "iron", 64), 10);
    inv.add_item(item("ruztex", "coal", 64), 100);
    let text = inv.render();
    let h = |n: usize| "\u{2500}".repeat(n);
    let v = '\u{2502}';
    let mut expected = String::new();
    expected.push_str(&format!("\u{256d}{}\u{252c}{}\u{256e}\n", h(23), h(9)));
    expected.push_str(&format!("{v} {:<21} {v} {:>7} {v}\n", "Item", "Amount"));
    expected.push_str(&format!("\u{251c}{}\u{253c}{}\u{2524}\n", h(23), h(9)));
    expected.push_str(&format!("{v} {:<21} {v} {:>6}x {v}\n", "coal", 64));
    expected.push_str(&format!("{v} {:<21} {v} {:>6}x {v}\n", "coal", 36));
    expected.push_str(&format!("{v} {:<21} {v} {:>6}x {v}\n", "iron", 10));
    expected.push_str(&format!("\u{251c}{}\u{252c}{}\u{2524}\n", h(13), h(19)));
    expected.push_str(&format!("{v} Total Items {v} {:>17} {v}\n", "110/2048"));
    expected.push_str(&format!("{v} Stacks      {v} {:>17} {v}\n", "3/32"));
    expected.push_str(&format!("{v} Money       {v} {:>17} {v}\n", 10));
    expected.push_str(&format!("\u{2570}{}\u{2534}{}\u{256f}\n", h(13), h(19)));
    assert_eq!(text, expected);
}

#[test]
fn inventory_renders_empty_with_blank_row_and_missing_money() {
    let inv = Inventory::new(None);
    let text = inv.render();
    let h = |n: usize| "\u{2500}".repeat(n);
    let v = '\u{2502}';
    let mut expected = String::new();
    expected.push_str(&format!("\u{256d}{}\u{252c}{}\u{256e}\n", h(23), h(9)));
    expected.push_str(&format!("{v} {:<21} {v} {:>7} {v}\n", "Item", "Amount"));
    expected.push_str(&format!("\u{251c}{}\u{253c}{}\u{2524}\n", h(23), h(9)));
    expected.push_str(&format!("{v} {:<21} {v} {:>7} {v}\n", "", ""));
    expected.push_str(&format!("\u{251c}{}\u{252c}{}\u{2524}\n", h(13), h(19)));
    expected.push_str(&format!("{v} Total Items {v} {:>17} {v}\n", "0/2048"));
    expected.push_str(&format!("{v} Stacks      {v} {:>17} {v}\n", "0/32"));
    expected.push_str(&format!("{v} Money       {v} {:>17} {v}\n", "N/A"));
    expected.push_str(&format!("\u{2570}{}\u{2534}{}\u{256f}\n", h(13), h(19)));
    assert_eq!(text, expected);
}

#[test]
fn translation_id_parses_and_renders_parts() {
    let t = TranslationID::parse("examplemod:item.hammer").unwrap();
    assert_eq!(t.namespace, "examplemod");
    assert_eq!(t.category, "item");
    assert_eq!(t.name, "hammer");
    assert!(TranslationID::parse("no_colon_here").is_none());
    assert!(TranslationID::parse("ns:no_dot_here").is_none());
    // The split points are the first colon and the first dot after it.
    let t = TranslationID::parse("a:b.c.d").unwrap();
    assert_eq!((t.category.as_str(), t.name.as_str()), ("b", "c.d"));
}

#[test]
fn translation_id_from_entity_id() {
    let t = TranslationID::from_id(&ID::new("ruztex", "coal"), "item");
    assert_eq!(t.namespace, "ruztex");
    assert_eq!(t.category, "item");
    assert_eq!(t.name, "coal");
}

#[test]
fn language_codes_and_list() {
    assert!(LanguageList::is_valid_code("de_DE"));
    assert!(LanguageList::is_valid_code("en_US"));
    assert!(!LanguageList::is_valid_code("en-US"));
    assert!(!LanguageList::is_valid_code("EN_us"));
    assert!(!LanguageList::is_valid_code("en_USA"));

    let mut list = LanguageList::new();
    list.add("Deutsch", "de_DE");
    list.add("English", "en_US");
    list.add("Doppelt", "de_DE");
    assert_eq!(list.languages.len(), 2);
    assert_eq!(list.get("de_DE").unwrap().name, "Deutsch");
    assert!(list.get("fr_FR").is_none());
    assert!(list.get("not a code").is_none());
}

#[test]
fn translator_key_validation() {
    assert!(Translator::is_valid_identifier("examplemod:item.hammer"));
    // The separator between category and name may be any character.
    assert!(Translator::is_valid_identifier("examplemod:item_hammer"));
    assert!(!Translator::is_valid_identifier("examplemod_item.hammer"));
    assert!(!Translator::is_valid_identifier(":item.hammer"));
    assert!(!Translator::is_valid_identifier("Examplemod:item.hammer"));
    assert!(!Translator::is_valid_identifier("ns:a"));
    assert!(!Translator::is_valid_identifier("ns:a.b!c!d"));
}

fn lang() -> Language {
    Language { name: "English".to_string(), code: "en_US".to_string() }
}

#[test]
fn translator_loads_yaml_and_translates() {
    let yaml = "examplemod:item.hammer: Hammer\nexamplemod:misc.greeting: \"Hello, {p}!\"\n";
    let t = Translator::load_from_str(lang(), yaml).unwrap();
    assert_eq!(t.translations.len(), 2);

    let hammer = TranslationID::parse("examplemod:item.hammer").unwrap();
    assert_eq!(t.translate(&hammer, None), "Hammer");

    let greeting = TranslationID::parse("examplemod:misc.greeting").unwrap();
    let vars = vec![("p".to_string(), "Kuhly".to_string())];
    assert_eq!(t.translate(&greeting, Some(&vars)), "Hello, Kuhly!");

    // A missing identifier falls back to its own text.
    let missing = TranslationID::new("examplemod", "misc", "nope");
    assert_eq!(t.translate(&missing, None), "examplemod:misc.nope");
}

#[test]
fn translator_skips_bad_keys_and_rejects_undotted_valid_keys() {
    let skipped = Translator::load_from_str(lang(), "Not A Key: x\nns:a.b: ok\n").unwrap();
    assert_eq!(skipped.translations.len(), 1);

    let err = Translator::load_from_str(lang(), "ns:abxcd: broken\n");
    assert_eq!(err.unwrap_err(), "invalid translation key: ns:abxcd");

    let unparsable = Translator::load_from_str(lang(), "- just\n- a list\n");
    assert_eq!(unparsable.unwrap_err(), "could not parse translation file");
}

#[test]
fn translator_replaces_every_occurrence_in_order() {
    let yaml = "ns:misc.twice: \"{a}{a}-{b}\"\n";
    let t = Translator::load_from_str(lang(), yaml).unwrap();
    let id = TranslationID::parse("ns:misc.twice").unwrap();
    let vars = vec![("a".to_string(), "x".to_string()), ("b".to_string(), "y".to_string())];
    assert_eq!(t.translate(&id, Some(&vars)), "xx-y");
}
