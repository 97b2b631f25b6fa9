//! JSON text: parsing a settings file's text and writing it back, through
//! `serde_json`.
use vstd::prelude::*;
use vstd::string::*;
use crate::json::{Json, JsonView, members_view, keys_unique, drop_shadowed};

verus! {

/// `serde_json`'s JSON value, carried through opaquely.
#[verifier::external_type_specification]
#[verifier::external_body]
pub struct ExJsonValue(serde_json::Value);

/// What `serde_json::from_str::<serde_json::Value>` makes of a text: the
/// document it denotes, or the parser's error message.
pub uninterp spec fn parsed_json(text: Seq<char>) -> Result<JsonView, Seq<char>>;

/// What `serde_json::to_string_pretty` writes for a document.
pub uninterp spec fn pretty_json(doc: JsonView) -> Seq<char>;

/// Whether a document comes back unchanged from its JSON text: it nests
/// arrays and objects at most `depth` deep, its objects have finitely many
/// keys, and each of its numbers is written as the text it holds (the form in
/// which `serde_json` writes numbers: `1`, `-2`, `0.5`, not `1.50` or `-0`;
/// a text that is no number at all is written as `null`).
pub open spec fn reads_back(v: JsonView, depth: nat) -> bool
    decreases depth,
{
    match v {
        JsonView::Number(n) => n != "null"@ && pretty_json(JsonView::Number(n)) == n,
        JsonView::Array(a) => depth > 0 && forall|i: int| 0 <= i < a.len() ==> #[trigger] reads_back(a[i], (depth - 1) as nat),
        JsonView::Object(m) => depth > 0 && m.dom().finite() && forall|k: Seq<char>| m.contains_key(k) ==> #[trigger] reads_back(m[k], (depth - 1) as nat),
        _ => true,
    }
}

/// Converts a value of `serde_json` to the library's type, variant for
/// variant; a number keeps its text. Used by `parse_json_text` only.
#[verifier::external_body]
fn json_of_value(v: serde_json::Value) -> Json {
    match v {
        serde_json::Value::Null => Json::Null,
        serde_json::Value::Bool(b) => Json::Bool(b),
        serde_json::Value::Number(n) => Json::Number(n.to_string()),
        serde_json::Value::String(s) => Json::Str(s),
        serde_json::Value::Array(a) => Json::Array(a.into_iter().map(json_of_value).collect()),
        serde_json::Value::Object(m) => Json::Object(m.into_iter().map(|(k, v)| (k, json_of_value(v))).collect()),
    }
}

/// Converts a document to a value of `serde_json`, variant for variant: a
/// number is read back from its text (a text that is not a JSON number
/// becomes `null`). Used by `pretty_json_text` only, on documents in which
/// no object has a key twice.
#[verifier::external_body]
fn value_of_json(j: Json) -> serde_json::Value {
    match j {
        Json::Null => serde_json::Value::Null,
        Json::Bool(b) => serde_json::Value::Bool(b),
        Json::Number(n) => n.parse::<serde_json::Number>().map(serde_json::Value::Number).unwrap_or(serde_json::Value::Null),
        Json::Str(s) => serde_json::Value::String(s),
        Json::Array(a) => serde_json::Value::Array(a.into_iter().map(value_of_json).collect()),
        Json::Object(m) => serde_json::Value::Object(m.into_iter().map(|(k, v)| (k, value_of_json(v))).collect()),
    }
}

/// Parses JSON text with `serde_json::from_str::<serde_json::Value>`. The
/// contract claims that the outcome depends on the text alone and names it
/// `parsed_json`: the document, or the parser's error message. It also
/// claims that the text `serde_json::to_string_pretty` writes for a document,
/// followed by a line break, parses as that document, where the document
/// nests at most 100 deep (the parser refuses more than 127) and its numbers
/// are written as the texts they hold: the writer escapes strings and keys,
/// which the reader undoes, writes `null`, `true`, `false` and numbers as
/// they are, and the reader skips white space at the end.
#[verifier::external_body]
fn parse_json_text(text: &str) -> (r: Result<Json, String>)
    ensures
        match r {
            Ok(j) => parsed_json(text@) == Ok::<JsonView, Seq<char>>(j@),
            Err(e) => parsed_json(text@) == Err::<JsonView, Seq<char>>(e@),
        },
        forall|v: JsonView| reads_back(v, 100) && text@ == #[trigger] pretty_json(v) + "\n"@
            ==> r is Ok && r->Ok_0@ == v,
{
    serde_json::from_str::<serde_json::Value>(text).map(json_of_value).map_err(|e| e.to_string())
}

/// Writes a document as indented JSON text with `serde_json::to_string_pretty`.
/// The document must have no object with a key twice: the `serde_json` value
/// built from it is then fixed by the document's view (its objects are maps
/// with sorted keys). The contract claims that the text depends on that view
/// alone, names it `pretty_json`, and claims that writing succeeds, as
/// `serde_json` documents: it fails only for a `Serialize` impl that fails or
/// for a map with keys that are not strings, and a `serde_json` value has
/// neither.
#[verifier::external_body]
fn pretty_json_text(doc: Json) -> (r: Result<String, String>)
    requires
        keys_unique(doc),
    ensures
        r is Ok,
        r->Ok_0@ == pretty_json(doc@),
{
    serde_json::to_string_pretty(&value_of_json(doc)).map_err(|e| e.to_string())
}

/// The settings that a settings file gives, from the outcome of parsing its
/// text as JSON (the parsed document, or the parser's error message): the
/// members of the document where it is an object, an error naming the file
/// otherwise.
pub fn settings_from_parse(parsed: Result<Json, String>, path: &str) -> (r: Result<Vec<(String, Json)>, String>)
    ensures
        match parsed {
            Ok(Json::Object(m)) => r == Ok::<Vec<(String, Json)>, String>(m),
            Ok(_) => r matches Err(e) && e@ == path@ + " is not a JSON object"@,
            Err(p) => r matches Err(e) && e@ == "Cannot parse "@ + path@ + ": "@ + p@,
        },
{
    match parsed {
        Ok(Json::Object(m)) => Ok(m),
        Ok(_) => {
            let mut e = path.to_owned();
            e.append(" is not a JSON object");
            Err(e)
        },
        Err(p) => {
            let mut e = "Cannot parse ".to_owned();
            e.append(path);
            e.append(": ");
            e.append(p.as_str());
            Err(e)
        },
    }
}

/// The settings in the text of the settings file at `path`: the members of
/// the JSON document where it is an object, an error naming the file where
/// it is another value or no JSON at all. The text that `settings_text`
/// writes for settings reads back as the same settings (every value as it
/// was, `false` as `false`), wherever they nest at most 100 deep and their
/// numbers are written as `serde_json` writes them.
pub fn settings_from_text(text: &str, path: &str) -> (r: Result<Vec<(String, Json)>, String>)
    ensures
        forall|m: Map<Seq<char>, JsonView>| reads_back(JsonView::Object(m), 100)
            && text@ == #[trigger] pretty_json(JsonView::Object(m)) + "\n"@
            ==> r is Ok && members_view(r->Ok_0@) == m,
        match parsed_json(text@) {
            Ok(JsonView::Object(m)) => r matches Ok(v) && members_view(v@) == m,
            Ok(_) => r matches Err(e) && e@ == path@ + " is not a JSON object"@,
            Err(p) => r matches Err(e) && e@ == "Cannot parse "@ + path@ + ": "@ + p,
        },
{
    settings_from_parse(parse_json_text(text), path)
}

/// The text of a settings file from its document written as JSON text: the
/// text followed by a line break.
pub fn with_final_newline(pretty: String) -> (r: String)
    ensures
        r@ == pretty@ + "\n"@,
{
    let mut t = pretty;
    t.append("\n");
    t
}

/// The text of the settings file that holds the given settings (the members
/// of its object): the document, with no member shadowed by an earlier one
/// of the same key, as indented JSON text and a line break.
pub fn settings_text(settings: Vec<(String, Json)>) -> (r: String)
    ensures
        r@ == pretty_json(JsonView::Object(members_view(settings@))) + "\n"@,
{
    let doc = drop_shadowed(Json::Object(settings));
    match pretty_json_text(doc) {
        Ok(t) => with_final_newline(t),
        // Never taken: writing a document whose keys are unique succeeds.
        Err(_) => String::new(),
    }
}

} // verus!
