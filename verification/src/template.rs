//! Pages: what the template engine makes of a template and of the data
//! that fill it.

use handlebars::{Handlebars, RenderError};
use serde_json::Value;
use vstd::prelude::*;

verus! {

/// A text under a key, as the data of a template hold it.
pub type Field = (String, String);

/// What `Handlebars::render_template` makes of `template` and of an
/// object that holds each text of `fields` under its key, or `None` where
/// it fails. Each field is a key and the text under it.
pub uninterp spec fn page_of(template: Seq<char>, fields: Seq<(Seq<char>, Seq<char>)>) -> Option<
    Seq<char>,
>;

/// What `Handlebars::render_template` makes of `template` and of an
/// object that holds under `key` a list with one object for each of
/// `rows`, in their order, or `None` where it fails. Each row holds its
/// texts as the fields of `page_of` do.
pub uninterp spec fn list_page_of(
    template: Seq<char>,
    key: Seq<char>,
    rows: Seq<Seq<(Seq<char>, Seq<char>)>>,
) -> Option<Seq<char>>;

/// `handlebars::RenderError`: why a template was not rendered. Nothing is
/// known of what it holds.
#[verifier::external_type_specification]
#[verifier::external_body]
pub struct ExRenderError(RenderError);

/// The keys and texts of `fields`.
pub open spec fn fields_of(fields: Seq<Field>) -> Seq<(Seq<char>, Seq<char>)> {
    fields.map_values(|field: Field| (field.0@, field.1@))
}

/// The keys and texts of each of `rows`.
pub open spec fn rows_of(rows: Seq<Vec<Field>>) -> Seq<Seq<(Seq<char>, Seq<char>)>> {
    rows.map_values(|row: Vec<Field>| fields_of(row@))
}

/// `Handlebars::render_template` on a new registry, with `template` and
/// the object that `serde_json` makes of `fields`: each text under its
/// key, a later field in the place of an earlier one of the same key. The
/// contract names what it gives.
#[verifier::external_body]
pub(crate) fn render_fields(template: &str, fields: &Vec<Field>) -> (page: Result<
    String,
    RenderError,
>)
    ensures
        match page_of(template@, fields_of(fields@)) {
            Some(made) => page matches Ok(text) && text@ == made,
            None => page is Err,
        },
{
    let mut data = serde_json::Map::new();
    for field in fields {
        data.insert(field.0.clone(), Value::from(field.1.as_str()));
    }
    Handlebars::new().render_template(template, &Value::Object(data))
}

/// `Handlebars::render_template` on a new registry, with `template` and
/// the object that holds under `key` the list of the objects that
/// `serde_json` makes of `rows`, one of each row and in their order. The
/// contract names what it gives.
#[verifier::external_body]
pub(crate) fn render_rows(template: &str, key: &str, rows: &Vec<Vec<Field>>) -> (page: Result<
    String,
    RenderError,
>)
    ensures
        match list_page_of(template@, key@, rows_of(rows@)) {
            Some(made) => page matches Ok(text) && text@ == made,
            None => page is Err,
        },
{
    let mut list = Vec::new();
    for row in rows {
        let mut object = serde_json::Map::new();
        for field in row {
            object.insert(field.0.clone(), Value::from(field.1.as_str()));
        }
        list.push(Value::Object(object));
    }
    let mut data = serde_json::Map::new();
    data.insert(key.to_string(), Value::Array(list));
    Handlebars::new().render_template(template, &Value::Object(data))
}

/// The text of a `RenderError`.
#[verifier::external_body]
pub(crate) fn render_error_text(error: &RenderError) -> String {
    error.to_string()
}

} // verus!
