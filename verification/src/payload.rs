//! What leaves this machine for a match: a flat list of named fields,
//! numbers, flags and short texts. The values are framed here; turning them
//! into JSON is left to the caller.
use vstd::prelude::*;

verus! {

/// One field's value.
#[derive(Debug, Clone, PartialEq)]
pub enum FieldValue {
    Text(String),
    Int(i64),
    Bool(bool),
}

/// A field's value as the contracts see it.
pub enum Val {
    Text(Seq<char>),
    Int(i64),
    Bool(bool),
}

pub open spec fn val_of(v: FieldValue) -> Val {
    match v {
        FieldValue::Text(s) => Val::Text(s@),
        FieldValue::Int(i) => Val::Int(i),
        FieldValue::Bool(b) => Val::Bool(b),
    }
}

/// The fields as the contracts see them: each name with its value.
pub open spec fn fields_view(v: Seq<(String, FieldValue)>) -> Seq<(Seq<char>, Val)> {
    v.map_values(|f: (String, FieldValue)| (f.0@, val_of(f.1)))
}

/// Appends a text field.
pub fn push_text(out: &mut Vec<(String, FieldValue)>, key: &str, v: &str)
    ensures
        fields_view(final(out)@) == fields_view(old(out)@).push((key@, Val::Text(v@))),
{
    out.push((key.to_owned(), FieldValue::Text(v.to_owned())));
    proof {
        assert(fields_view(out@) =~= fields_view(old(out)@).push((key@, Val::Text(v@))));
    }
}

/// Appends a number field.
pub fn push_int(out: &mut Vec<(String, FieldValue)>, key: &str, v: i64)
    ensures
        fields_view(final(out)@) == fields_view(old(out)@).push((key@, Val::Int(v))),
{
    out.push((key.to_owned(), FieldValue::Int(v)));
    proof {
        assert(fields_view(out@) =~= fields_view(old(out)@).push((key@, Val::Int(v))));
    }
}

/// Appends a flag field.
pub fn push_bool(out: &mut Vec<(String, FieldValue)>, key: &str, v: bool)
    ensures
        fields_view(final(out)@) == fields_view(old(out)@).push((key@, Val::Bool(v))),
{
    out.push((key.to_owned(), FieldValue::Bool(v)));
    proof {
        assert(fields_view(out@) =~= fields_view(old(out)@).push((key@, Val::Bool(v))));
    }
}

/// The end of a match, broadcast so the live card disappears at once: the
/// game and the flag, nothing else.
pub fn ended_payload(slug: &str) -> (r: Vec<(String, FieldValue)>)
    ensures
        fields_view(r@) == seq![("game_slug"@, Val::Text(slug@)), ("ended"@, Val::Bool(true))],
{
    let mut o: Vec<(String, FieldValue)> = Vec::new();
    proof {
        assert(fields_view(o@) =~= seq![]);
    }
    push_text(&mut o, "game_slug", slug);
    push_bool(&mut o, "ended", true);
    proof {
        assert(fields_view(o@) =~= seq![("game_slug"@, Val::Text(slug@)), ("ended"@, Val::Bool(true))]);
    }
    o
}

} // verus!
