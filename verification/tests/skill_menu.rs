use ganja_tui::component::skill_menu::{combine, rank_rows, ranked, Skill, SkillMenu};
use ganja_tui::mention::Fragment;
use ganja_tui::theme::Theme;

fn skill(name: &str, description: Option<&str>) -> (Skill, String) {
    tagged(name, description, "user")
}

fn tagged(name: &str, description: Option<&str>, source: &str) -> (Skill, String) {
    (
        Skill { name: name.to_owned(), description: description.map(str::to_owned) },
        source.to_owned(),
    )
}

fn fragment(text: &str) -> Fragment {
    Fragment { row: 0, start: 0, text: text.to_owned() }
}

#[test]
fn an_empty_fragment_offers_every_skill_in_discovery_order() {
    let menu = SkillMenu::new(
        fragment(""),
        &vec![
            skill("alpha", Some("first")),
            skill("beta", None),
            skill("gamma", Some("third")),
        ],
    );

    assert!(!menu.is_empty());
    assert_eq!(menu.selected(), Some("alpha"));
}

#[test]
fn a_row_opens_its_description_with_the_source_tag() {
    let menu = SkillMenu::new(
        fragment(""),
        &vec![
            tagged("ask-matt", Some("A router."), "mattpocock-skills"),
            skill("mine", None),
        ],
    );

    assert_eq!(
        *menu.rows(),
        vec![
            (
                "ask-matt".to_owned(),
                "(mattpocock-skills) A router.".to_owned()
            ),
            ("mine".to_owned(), "(user)".to_owned()),
        ]
    );
}

#[test]
fn a_fragment_can_match_the_source_tag() {
    let menu = SkillMenu::new(
        fragment("matt"),
        &vec![
            tagged("ask", Some("A router."), "mattpocock-skills"),
            skill("porting", Some("how to port")),
        ],
    );

    assert_eq!(menu.selected(), Some("ask"));
}

#[test]
fn a_fragment_narrows_and_ranks_with_the_name_outweighing_the_description() {
    let menu = SkillMenu::new(
        fragment("port"),
        &vec![
            skill("review", Some("reviews a port")),
            skill("porting", Some("how to port")),
            skill("unrelated", None),
        ],
    );

    assert_eq!(
        menu.selected(),
        Some("porting"),
        "the name match outranks the description match"
    );
}

#[test]
fn a_fragment_matching_nothing_is_an_empty_menu() {
    let menu = SkillMenu::new(fragment("zzz"), &vec![skill("porting", None)]);

    assert!(menu.is_empty());
    assert_eq!(menu.selected(), None);
}

#[test]
fn the_cursor_clamps_at_both_ends() {
    let mut menu = SkillMenu::new(fragment(""), &vec![skill("a", None), skill("b", None)]);

    menu.move_selection(5);
    assert_eq!(menu.selected(), Some("b"));
    menu.move_selection(-9);
    assert_eq!(menu.selected(), Some("a"));
}

#[test]
fn a_menu_answers_for_the_fragment_it_was_opened_for() {
    let menu = SkillMenu::new(fragment("po"), &vec![skill("porting", None)]);

    assert!(menu.answers(&fragment("po")));
    assert!(!menu.answers(&fragment("por")));
    assert!(!menu.answers(&Fragment { row: 1, ..fragment("po") }));
    assert_eq!(menu.fragment(), &fragment("po"));
}

#[test]
fn a_name_counts_double() {
    assert_eq!(combine(None, None), None);
    assert_eq!(combine(Some(10), None), Some(20));
    assert_eq!(combine(None, Some(15)), Some(15));
    assert_eq!(combine(Some(10), Some(15)), Some(20));
    assert_eq!(combine(Some(10), Some(30)), Some(30));
    assert_eq!(combine(Some(u16::MAX), None), Some(131_070));
}

#[test]
fn rows_come_best_first_and_equal_ones_by_name() {
    let row = |name: &str| (name.to_owned(), "(user)".to_owned());
    let rows = vec![row("c"), row("b"), row("a"), row("d")];
    let scores = vec![Some(1), Some(7), Some(1), None];

    let names: Vec<String> = rank_rows(&rows, &scores).into_iter().map(|row| row.0).collect();
    assert_eq!(names, ["b", "a", "c"]);
}

#[test]
fn a_needle_is_matched_in_whatever_case() {
    let skills = vec![skill("Porting", None), skill("review", None)];

    let rows = ranked("PORT", &skills);
    assert_eq!(rows, vec![("Porting".to_owned(), "(user)".to_owned())]);
}

#[test]
fn an_empty_menu_says_so() {
    let empty = SkillMenu::new(fragment("zzz"), &vec![skill("porting", None)]);
    let line = empty.empty_line(80, &Theme::default()).expect("there is nothing to choose from");
    assert_eq!(line.spans[0].content.trim_end(), "no matching skills");

    let menu = SkillMenu::new(fragment(""), &vec![skill("porting", None)]);
    assert_eq!(menu.empty_line(80, &Theme::default()), None);
}

#[test]
fn a_needle_is_scored_up_to_the_longest_and_no_longer() {
    let name = "a".repeat(2520);
    assert_eq!(ranked(&name, &vec![skill(&name, None)]).len(), 1);
    let longer = "a".repeat(4000);
    assert!(ranked(&longer, &vec![skill(&longer, None)]).is_empty());
}
