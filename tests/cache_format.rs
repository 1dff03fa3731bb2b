use anno_consumption::cache::{join_cache, split_cache, tables_from_page};
use anno_consumption::log::{log_line, LoggerSeverity};
use anno_consumption::site::{
    get_consumption_file_path, get_data_file_path, get_residence_set, get_temp_data_path,
    get_temp_path, residence_url,
};
use anno_consumption::table::collect_rows;

fn strings(v: &[&str]) -> Vec<String> {
    v.iter().map(|s| s.to_string()).collect()
}

#[test]
fn join_puts_a_bar_between_fragments() {
    assert_eq!(join_cache(&strings(&["a", "b", "c"])), "a|b|c");
    assert_eq!(join_cache(&strings(&["only"])), "only");
    assert_eq!(join_cache(&Vec::new()), "");
}

#[test]
fn split_cuts_at_every_bar() {
    assert_eq!(split_cache("a|b||c"), strings(&["a", "b", "", "c"]));
    assert_eq!(split_cache(""), strings(&[""]));
    assert_eq!(split_cache("|"), strings(&["", ""]));
}

#[test]
fn round_trip_restores_fragments_without_bars() {
    let tables = strings(&["<tr><th>Farmers</th></tr>", "", "<tr><td>x</td></tr>"]);
    assert_eq!(split_cache(&join_cache(&tables)), tables);
}

#[test]
fn round_trip_breaks_on_an_embedded_bar() {
    let tables = strings(&["left|right", "next"]);
    let back = split_cache(&join_cache(&tables));
    assert_ne!(back, tables);
    assert_eq!(back, strings(&["left", "right", "next"]));
}

#[test]
fn cached_runs_are_identical() {
    let cache = "<tr><th>Farmers</th></tr><tr><th>Fish</th><td>1</td></tr>|<tr><th>Ships</th></tr>";
    let cats = get_residence_set();
    let first_tables = split_cache(cache);
    let first_rows = collect_rows(&first_tables, &cats);
    let rewritten = join_cache(&first_tables);
    assert_eq!(rewritten, cache);
    let second_rows = collect_rows(&split_cache(&rewritten), &cats);
    assert_eq!(first_rows, second_rows);
    assert_eq!(first_rows.len(), 2);
}

#[test]
fn page_tables_ignore_line_breaks() {
    let page = "<html><table class=\"a\">\n<tr><th>Farmers</th></tr>\n</table><p>x</p><table><tr><td>1</td></tr></table></html>";
    assert_eq!(
        tables_from_page(page),
        strings(&["<tr><th>Farmers</th></tr>", "<tr><td>1</td></tr>"])
    );
    assert!(tables_from_page("<p>no tables</p>").is_empty());
}

#[test]
fn end_to_end_counts_header_rows_of_matching_table() {
    let cats = strings(&["Farmer", "Worker"]);
    let farmer_page = "<html><body>\n<table class=\"wikitable\">\n<tr><th colspan=\"2\">Farmers</th></tr>\n<tr><th>Fish</th><td>0.0025</td></tr>\n<tr><th>Work Clothes</th><td>0.0033</td></tr>\n<tr><td>footnote</td></tr>\n</table>\n</body></html>";
    let worker_page = "<html><body><table><tr><th>Buildings</th></tr><tr><th>Bakery</th><td>1</td></tr></table></body></html>";
    let mut tables = tables_from_page(farmer_page);
    tables.extend(tables_from_page(worker_page));
    let cache = join_cache(&tables);
    let rows = collect_rows(&split_cache(&cache), &cats);
    assert_eq!(
        rows,
        vec![
            strings(&["Farmers"]),
            strings(&["Fish", "0.0025"]),
            strings(&["Work Clothes", "0.0033"]),
        ]
    );
    assert_eq!(rows.len(), 3);
    let lines: Vec<String> = rows.iter().map(|r| format!("{:?}", r)).collect();
    assert_eq!(lines[1], "[\"Fish\", \"0.0025\"]");
}

#[test]
fn residence_url_names_the_page() {
    assert_eq!(residence_url("Farmer"), "https://anno1800.fandom.com/wiki/Farmer_Residence");
}

#[test]
fn residence_set_is_fixed() {
    let cats = get_residence_set();
    assert_eq!(cats.len(), 11);
    assert_eq!(cats[0], "Farmer");
    assert_eq!(cats[6], "Jornalero");
    assert_eq!(cats[10], "Elder");
}

#[test]
fn paths_are_under_temp() {
    assert_eq!(get_temp_path(), "./temp");
    assert_eq!(get_temp_data_path(), "./temp/data");
    assert_eq!(get_data_file_path(), "./temp/data/data.txt");
    assert_eq!(get_consumption_file_path(), "./temp/consumption.txt");
}

#[test]
fn log_line_prefixes_severity() {
    assert_eq!(log_line(LoggerSeverity::Info, "Loading"), "[INFO] Loading");
    assert_eq!(log_line(LoggerSeverity::Warning, "w"), "[WARNING] w");
    assert_eq!(log_line(LoggerSeverity::Error, ""), "[ERROR] ");
}
