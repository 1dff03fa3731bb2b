use anno_consumption::extract::select_by_tag;
use anno_consumption::table::{classify_table, collect_rows, parse_rows};
use anno_consumption::site::get_residence_set;

fn strings(v: &[&str]) -> Vec<String> {
    v.iter().map(|s| s.to_string()).collect()
}

fn regex_captures(html: &str, pattern: &str) -> Vec<String> {
    let re = regex::Regex::new(pattern).unwrap();
    re.captures_iter(html).map(|cap| cap[1].to_string()).collect()
}

#[test]
fn select_returns_each_occurrence_in_order() {
    let html = "x<td>a</td> y <td class=\"n\">b</td><td></td>z";
    assert_eq!(select_by_tag(html, "td", false), strings(&["a", "b", ""]));
}

#[test]
fn select_without_occurrence_is_empty() {
    assert!(select_by_tag("no cells here", "td", false).is_empty());
    assert!(select_by_tag("", "td", true).is_empty());
    assert!(select_by_tag("<td>open but never closed", "td", false).is_empty());
}

#[test]
fn select_strips_inner_tags_and_trims() {
    let got = select_by_tag("<td><b>Farmer</b> House</td>", "td", true);
    assert_eq!(got, strings(&["Farmer House"]));
    let got = select_by_tag("<th>\t <i>Level</i>\u{a0}</th>", "th", true);
    assert_eq!(got, strings(&["Level"]));
}

#[test]
fn select_takes_the_shortest_span() {
    let html = "<tr><tr>inner</tr>outer</tr>";
    assert_eq!(select_by_tag(html, "tr", false), strings(&["<tr>inner"]));
}

#[test]
fn select_does_not_cross_line_breaks() {
    assert!(select_by_tag("<td>a\nb</td>", "td", false).is_empty());
    assert_eq!(select_by_tag("<td>a\n<td>b</td>", "td", false), strings(&["b"]));
}

#[test]
fn select_agrees_with_the_regex_patterns() {
    let samples = [
        "<table class=\"w\"><tr><th>Farmers</th></tr><tr><th>Fish</th><td><a href=\"x\">1</a></td></tr></table>",
        "<tr><tr>inner</tr>outer</tr><track>t</tr>",
        "<td>a\nb</td><td>c</td>\n<td x>d</td>",
        "<th <b>>odd</th>< th>no</th><th>yes</th",
        "",
    ];
    for html in samples {
        for tag in ["table", "tr", "th", "td"] {
            let pattern = format!("<{}.*?>(.*?)</{}>", tag, tag);
            assert_eq!(select_by_tag(html, tag, false), regex_captures(html, &pattern));
            let stripped: Vec<String> = regex_captures(html, &pattern)
                .iter()
                .map(|s| regex::Regex::new("<.*?>").unwrap().replace_all(s, "").trim().to_string())
                .collect();
            assert_eq!(select_by_tag(html, tag, true), stripped);
        }
    }
}

#[test]
fn classify_strips_a_trailing_s() {
    let cats = get_residence_set();
    let table = "<tbody><tr><th colspan=\"3\">Farmers</th></tr><tr><th>Fish</th><td>1</td></tr></tbody>";
    assert_eq!(classify_table(table, &cats), Some("Farmer".to_string()));
}

#[test]
fn classify_rejects_an_unknown_title() {
    let cats = get_residence_set();
    let table = "<tr><th>Unknown Group</th></tr>";
    assert_eq!(classify_table(table, &cats), None);
}

#[test]
fn classify_strips_only_one_s() {
    let cats = get_residence_set();
    assert_eq!(classify_table("<tr><th>Farmerss</th></tr>", &cats), None);
    assert_eq!(classify_table("<tr><th>Elder</th></tr>", &cats), Some("Elder".to_string()));
}

#[test]
fn classify_needs_a_row_and_a_header() {
    let cats = get_residence_set();
    assert_eq!(classify_table("<th>Farmer</th>", &cats), None);
    assert_eq!(classify_table("<tr><td>Farmer</td></tr>", &cats), None);
    assert_eq!(classify_table("", &cats), None);
}

#[test]
fn parse_rows_skips_rows_without_header() {
    let table = "<tr><th>Farmer</th></tr><tr><th>Level</th><td>1</td></tr><tr><td>2</td></tr>";
    let rows = parse_rows(table);
    assert_eq!(rows, vec![strings(&["Farmer"]), strings(&["Level", "1"])]);
}

#[test]
fn parse_rows_puts_headers_before_data() {
    let table = "<tr><td>x</td><th>A</th><td>y</td><th>B</th></tr>";
    assert_eq!(parse_rows(table), vec![strings(&["A", "B", "x", "y"])]);
}

#[test]
fn collect_rows_keeps_only_classified_tables() {
    let cats = strings(&["Farmer", "Worker"]);
    let tables = strings(&[
        "<tr><th>Farmers</th></tr><tr><th>Fish</th><td>2</td></tr>",
        "<tr><th>Ships</th></tr><tr><th>Schooner</th><td>9</td></tr>",
        "<tr><th>Workers</th></tr><tr><td>no header</td></tr>",
    ]);
    let rows = collect_rows(&tables, &cats);
    assert_eq!(
        rows,
        vec![strings(&["Farmers"]), strings(&["Fish", "2"]), strings(&["Workers"])]
    );
}
