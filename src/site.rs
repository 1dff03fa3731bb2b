//! The residence categories, where their pages live, and where a run keeps
//! its files.

use vstd::prelude::*;
use crate::text::append_str;

verus! {

/// The residence categories, in the order their pages are fetched.
pub open spec fn residences() -> Seq<Seq<char>> {
    seq![
        "Farmer"@,
        "Worker"@,
        "Artisan"@,
        "Engineer"@,
        "Investor"@,
        "Scholar"@,
        "Jornalero"@,
        "Explorer"@,
        "Technician"@,
        "Shepherd"@,
        "Elder"@,
    ]
}

/// The residence categories. The order is fixed, so a cache written by one
/// run lines up with the categories of the next.
pub fn get_residence_set() -> (r: Vec<String>)
    ensures
        r.deep_view() == residences(),
{
    let r = vec![
        "Farmer".to_owned(),
        "Worker".to_owned(),
        "Artisan".to_owned(),
        "Engineer".to_owned(),
        "Investor".to_owned(),
        "Scholar".to_owned(),
        "Jornalero".to_owned(),
        "Explorer".to_owned(),
        "Technician".to_owned(),
        "Shepherd".to_owned(),
        "Elder".to_owned(),
    ];
    assert(r.deep_view() =~= residences());
    r
}

/// The wiki page of a residence category.
pub fn residence_url(category: &str) -> (r: String)
    ensures
        r@ == "https://anno1800.fandom.com/wiki/"@ + category@ + "_Residence"@,
{
    let mut r = String::new();
    append_str(&mut r, "https://anno1800.fandom.com/wiki/");
    append_str(&mut r, category);
    append_str(&mut r, "_Residence");
    assert(r@ =~= "https://anno1800.fandom.com/wiki/"@ + category@ + "_Residence"@);
    r
}

/// The working folder.
pub fn get_temp_path() -> (r: String)
    ensures
        r@ == "./temp"@,
{
    "./temp".to_owned()
}

/// The folder that holds the cache.
pub fn get_temp_data_path() -> (r: String)
    ensures
        r@ == "./temp/data"@,
{
    "./temp/data".to_owned()
}

/// The cache file: the folder of the cache, then `data.txt`.
pub fn get_data_file_path() -> (r: String)
    ensures
        r@ == "./temp/data"@ + "/"@ + "data.txt"@,
{
    let mut r = get_temp_data_path();
    append_str(&mut r, "/");
    append_str(&mut r, "data.txt");
    r
}

/// The file that receives the parsed records.
pub fn get_consumption_file_path() -> (r: String)
    ensures
        r@ == "./temp"@ + "/"@ + "consumption.txt"@,
{
    let mut r = get_temp_path();
    append_str(&mut r, "/");
    append_str(&mut r, "consumption.txt");
    r
}

} // verus!
