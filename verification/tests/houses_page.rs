use get_bicho::web::{houses_from_entries, houses_from_lists, parse_houses, House};

fn house(name: &str, value: &str) -> House {
    House { name: name.to_string(), value: value.to_string() }
}

fn entry(text: &str, value: Option<&str>) -> (String, Option<String>) {
    (text.to_string(), value.map(|v| v.to_string()))
}

#[test]
fn parse_houses_reads_the_first_list() {
    let page = "<html><body>\
        <select id=\"plain\"><option value=\"no\">not this list</option></select>\
        <select onchange=\"go(this)\">\
          <option>Escolha</option>\
          <option value=\"pt-rio\">  PT Rio\n </option>\
          <option value=\"N/A\">Nenhuma</option>\
          <option value=\"look\">Look Goiás</option>\
          <option value=\"\">Sem id</option>\
        </select>\
        <select onchange=\"other()\"><option value=\"x\">Second list</option></select>\
        </body></html>";
    assert_eq!(
        parse_houses(page),
        Some(vec![house("PT Rio", "pt-rio"), house("Look Goiás", "look"), house("Sem id", "")])
    );
}

#[test]
fn parse_houses_of_a_page_without_list_is_empty() {
    assert_eq!(parse_houses(""), Some(vec![]));
    assert_eq!(parse_houses("<p>nothing here</p>"), Some(vec![]));
    assert_eq!(parse_houses("<select><option value=\"a\">A</option></select>"), Some(vec![]));
}

#[test]
fn parse_houses_keeps_the_inner_html_of_an_entry() {
    let page = "<select onchange=\"f()\"><option value=\"a\"> A &amp; B </option></select>";
    assert_eq!(parse_houses(page), Some(vec![house("A &amp; B", "a")]));
}

#[test]
fn entries_without_id_stand_for_no_house() {
    let entries = vec![
        entry(" PT Rio ", Some("pt-rio")),
        entry("none", None),
        entry("n/a", Some("N/A")),
        entry("lower", Some("n/a")),
        entry("\u{a0}\tFederal\u{2003}", Some("federal")),
        entry("   ", Some("blank")),
    ];
    assert_eq!(
        houses_from_entries(&entries),
        vec![
            house("PT Rio", "pt-rio"),
            house("lower", "n/a"),
            house("Federal", "federal"),
            house("", "blank"),
        ]
    );
    assert_eq!(houses_from_entries(&vec![]), vec![]);
}

#[test]
fn only_the_first_list_counts() {
    let lists = vec![
        vec![entry("A", Some("a"))],
        vec![entry("B", Some("b")), entry("C", Some("c"))],
    ];
    assert_eq!(houses_from_lists(&lists), vec![house("A", "a")]);
    assert_eq!(houses_from_lists(&vec![vec![], vec![entry("B", Some("b"))]]), vec![]);
    assert_eq!(houses_from_lists(&vec![]), vec![]);
}
