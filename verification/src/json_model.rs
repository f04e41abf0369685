//! Extraction and rewriting of the top-level `model` field of a JSON body.

use vstd::prelude::*;

use crate::fields::{
    after, all_blank, behind_colon, blanks, colon_read, field_read,
    fields_are_gathered_from_the_whole_body, fields_read, gather, gathered, object_of_one_field,
    wanted_fields_are_kept, FieldSink, Gathered, Gathering,
};
use crate::json::{
    delimits, document_read, fields_of, fields_printable, fields_text, json_text, object_printable,
    object_view, parse, print, printable, reads_back, same_strings, string_read, string_text,
    value_read, value_skipped, written, Json, Reading, Tree, MAX_LEVELS,
};
use crate::table::{ascending, ascending_unique, assignments, holds, position, replaced};
use crate::text::{name_set, same_text};

verus! {

/// The last of the values that is a text with something in it.
pub open spec fn last_text(found: Seq<(Seq<char>, Tree)>) -> Option<Seq<char>>
    decreases found.len(),
{
    if found.len() == 0 {
        None
    } else {
        match found.last().1 {
            Tree::Text(text) if text.len() > 0 => Some(text),
            _ => last_text(found.drop_last()),
        }
    }
}

/// The model that `body` names: its last top-level `model` that is a text with something in it.
/// A body that is not one JSON object names none.
pub open spec fn model_in(body: Seq<u8>) -> Option<Seq<char>> {
    match gathered(body, set!["model"@]) {
        Some(found) => last_text(found),
        None => None,
    }
}

/// Extract the top-level `model` field from a request body.
///
/// Returns `None` for an empty body, a non-object body, or a non-string `model`.
pub fn extract_model(body: &[u8]) -> (model: Option<String>)
    ensures
        match model {
            Some(name) => model_in(body@) == Some(name@),
            None => model_in(body@) is None,
        },
{
    let mut wanted: Vec<String> = Vec::new();
    wanted.push("model".to_string());
    assert(name_set(wanted@) == set!["model"@]) by {
        assert(wanted@[0]@ == "model"@);
    }
    match gather(body, wanted) {
        Some(found) => {
            let mut i: usize = found.len();
            assert(fields_of(found@).take(i as int) == fields_of(found@));
            while i > 0
                invariant
                    i <= found@.len(),
                    model_in(body@) == last_text(fields_of(found@).take(i as int)),
                decreases i,
            {
                assert(fields_of(found@).take(i as int).drop_last() == fields_of(found@).take(i - 1));
                assert(fields_of(found@).take(i as int).last() == (
                    found@[i - 1].0@,
                    found@[i - 1].1@,
                ));
                i = i - 1;
                if let Json::Text(text) = &found[i].1 {
                    if !text.as_str().is_empty() {
                        return Some(text.clone());
                    }
                }
            }
            None
        },
        None => None,
    }
}

/// The document that `body` becomes when its top-level `model` is replaced by `model`; `None`
/// when `body` is not a JSON object, has no `model` or already has this one.
pub open spec fn rewritten(body: Seq<u8>, model: Seq<char>) -> Option<Tree> {
    match document_read(body) {
        Some(Tree::Object(fields)) if holds(fields, "model"@) && fields[position(
            fields,
            "model"@,
        )].1 != Tree::Text(model) => Some(
            Tree::Object(fields.update(position(fields, "model"@), ("model"@, Tree::Text(model)))),
        ),
        _ => None,
    }
}

/// The fields from `i` on whose names are in `wanted`.
pub open spec fn kept(
    fields: Seq<(Seq<char>, Tree)>,
    i: int,
    wanted: Set<Seq<char>>,
) -> Seq<(Seq<char>, Tree)>
    decreases fields.len() - i,
{
    if 0 <= i < fields.len() {
        (if wanted.contains(fields[i].0) {
            seq![fields[i]]
        } else {
            Seq::empty()
        }) + kept(fields, i + 1, wanted)
    } else {
        Seq::empty()
    }
}

/// Reading the text of an object's fields gives the wanted ones back.
#[verifier::rlimit(40)]
proof fn fields_read_back(fields: Seq<(Seq<char>, Tree)>, i: int, s: Gathering)
    requires
        0 <= i <= fields.len(),
        (fields_text(fields, i) + seq![0x7du8]).len() <= usize::MAX,
        forall|k: int|
            #![trigger fields[k]]
            i <= k < fields.len() ==> reads_back(string_text(fields[k].0), Tree::Text(fields[k].0))
                && reads_back(json_text(fields[k].1), fields[k].1) && (s.wanted.contains(
                fields[k].0,
            ) ==> fields[k].1 is Text),
    ensures
        fields_read::<Gathered>(fields_text(fields, i) + seq![0x7du8], i == 0, s) == Reading::Done(
            Gathering { wanted: s.wanted, found: s.found + kept(fields, i, s.wanted) },
            (fields_text(fields, i) + seq![0x7du8]).len() as usize,
        ),
    decreases fields.len() - i,
{
    let rest = fields_text(fields, i) + seq![0x7du8];
    if i == fields.len() {
        assert(rest == seq![0x7du8]);
        assert(blanks(rest) == 0);
        assert(s.found + kept(fields, i, s.wanted) == s.found);
    } else {
        let name = string_text(fields[i].0);
        let value = json_text(fields[i].1);
        let tail = fields_text(fields, i + 1) + seq![0x7du8];
        let lead = if i == 0 {
            Seq::<u8>::empty()
        } else {
            seq![0x2cu8]
        };
        let text = name + (seq![0x3au8] + (value + tail));
        assert(rest == lead + text);
        assert(delimits(tail)) by {
            if i + 1 < fields.len() {
                assert(tail[0] == 0x2c);
            } else {
                assert(tail == seq![0x7du8]);
            }
        }
        let next = field_kept(fields[i], s);
        if i == 0 {
            assert(lead + text == text);
            first_field_starts(text, s);
        } else {
            next_field_starts(text, s);
        }
        one_field_back(lead, fields[i], tail, s);
        fields_read_back(fields, i + 1, next);
        assert(next.found + kept(fields, i + 1, s.wanted) == s.found + kept(fields, i, s.wanted));
    }
}

/// The first field starts with its name.
proof fn first_field_starts(text: Seq<u8>, s: Gathering)
    requires
        text.len() > 0,
        text[0] == 0x22,
    ensures
        fields_read::<Gathered>(text, true, s) == field_read::<Gathered>(text, 0, s),
{
    assert(blanks(text) == 0);
}

/// Every other field starts with its name behind a comma.
proof fn next_field_starts(text: Seq<u8>, s: Gathering)
    requires
        text.len() > 0,
        text[0] == 0x22,
    ensures
        fields_read::<Gathered>(seq![0x2cu8] + text, false, s) == field_read::<Gathered>(
            seq![0x2cu8] + text,
            1,
            s,
        ),
{
    let rest = seq![0x2cu8] + text;
    assert(rest[0] == 0x2c);
    assert(blanks(rest) == 0);
    assert(rest.skip(1) == text);
    assert(blanks(text) == 0);
}

/// Reading the text of one field keeps it, when it is wanted, and goes on behind it.
proof fn one_field_back(lead: Seq<u8>, field: (Seq<char>, Tree), tail: Seq<u8>, s: Gathering)
    requires
        delimits(tail),
        (lead + (string_text(field.0) + (seq![0x3au8] + (json_text(field.1) + tail)))).len()
            <= usize::MAX,
        reads_back(string_text(field.0), Tree::Text(field.0)),
        reads_back(json_text(field.1), field.1),
        s.wanted.contains(field.0) ==> field.1 is Text,
    ensures
        field_read::<Gathered>(
            lead + (string_text(field.0) + (seq![0x3au8] + (json_text(field.1) + tail))),
            lead.len() as int,
            s,
        ) == after(
            (lead.len() + string_text(field.0).len() + 1 + json_text(field.1).len()) as int,
            fields_read::<Gathered>(tail, false, field_kept(field, s)),
        ),
{
    let name = string_text(field.0);
    let value = json_text(field.1);
    let behind = seq![0x3au8] + (value + tail);
    assert(string_read(name + behind) == Reading::Done(field.0, name.len() as usize));
    field_step_back(field, tail, s);
    assert(behind.skip(1 + value.len() as int) == tail);
    field_read_once(lead, name, behind, field.0, (1 + value.len()) as usize, s, field_kept(field, s));
}

/// Reading a field goes on behind its value.
proof fn field_read_once(
    lead: Seq<u8>,
    text: Seq<u8>,
    behind: Seq<u8>,
    name: Seq<char>,
    used: usize,
    s: Gathering,
    next: Gathering,
)
    requires
        text.len() > 0,
        lead.len() + text.len() + behind.len() <= usize::MAX,
        string_read(text + behind) == Reading::Done(name, text.len() as usize),
        Gathered::step(s, name, behind) == Reading::Done(next, used),
        used <= behind.len(),
    ensures
        field_read::<Gathered>(lead + (text + behind), lead.len() as int, s) == after(
            lead.len() + text.len() + used,
            fields_read::<Gathered>(behind.skip(used as int), false, next),
        ),
{
    let rest = lead + (text + behind);
    let at = lead.len() as int;
    assert(rest.skip(at) == text + behind);
    assert(rest.skip(at + text.len()) == behind);
    assert(rest.skip(at + text.len() + used) == behind.skip(used as int));
}

/// `s` with one more field, when it is wanted.
spec fn field_kept(field: (Seq<char>, Tree), s: Gathering) -> Gathering {
    Gathering {
        wanted: s.wanted,
        found: if s.wanted.contains(field.0) {
            s.found.push(field)
        } else {
            s.found
        },
    }
}

/// Reading a field's colon and the text of its value gives the value back.
proof fn field_step_back(field: (Seq<char>, Tree), tail: Seq<u8>, s: Gathering)
    requires
        delimits(tail),
        (seq![0x3au8] + (json_text(field.1) + tail)).len() <= usize::MAX,
        reads_back(json_text(field.1), field.1),
        s.wanted.contains(field.0) ==> field.1 is Text,
    ensures
        Gathered::step(s, field.0, seq![0x3au8] + (json_text(field.1) + tail)) == Reading::Done(
            field_kept(field, s),
            (1 + json_text(field.1).len()) as usize,
        ),
{
    let value = json_text(field.1);
    let behind = seq![0x3au8] + (value + tail);
    assert(blanks(behind) == 0);
    assert(colon_read(behind) == Reading::Done((), 1usize));
    assert(behind_colon(behind) == value + tail);
    assert(value_skipped(value + tail) == Reading::Done((), value.len() as usize));
}

/// When one name is wanted and stands at one place, its field alone is kept.
proof fn kept_alone(fields: Seq<(Seq<char>, Tree)>, i: int, at: int)
    requires
        ascending(fields),
        0 <= i <= fields.len(),
        0 <= at < fields.len(),
    ensures
        kept(fields, i, set![fields[at].0]) == if i <= at {
            seq![fields[at]]
        } else {
            Seq::empty()
        },
    decreases fields.len() - i,
{
    if i < fields.len() {
        kept_alone(fields, i + 1, at);
        if fields[i].0 == fields[at].0 {
            ascending_unique(fields, i, at);
        }
    }
}

/// A body that was written from an object names the model that the object holds, character for
/// character, whatever its other fields are.
pub proof fn written_model(text: Seq<u8>, fields: Seq<(Seq<char>, Tree)>, at: int, model: Seq<char>)
    requires
        text.len() <= usize::MAX,
        written(text, Tree::Object(fields)),
        ascending(fields),
        0 <= at < fields.len(),
        fields[at] == ("model"@, Tree::Text(model)),
        model.len() > 0,
    ensures
        model_in(text) == Some(model),
{
    let wanted = set!["model"@];
    let s = Gathering { wanted, found: Seq::empty() };
    let rest = fields_text(fields, 0) + seq![0x7du8];
    assert(text == seq![0x7bu8] + rest);
    assert(blanks(text) == 0);
    assert(text.skip(1) == rest);
    assert forall|k: int| #![trigger fields[k]] 0 <= k < fields.len() && wanted.contains(fields[k].0)
        implies fields[k].1 is Text by {
        ascending_unique(fields, k, at);
    }
    fields_read_back(fields, 0, s);
    kept_alone(fields, 0, at);
    assert(s.found + kept(fields, 0, wanted) == seq![fields[at]]);
    assert(text.skip(text.len() as int).len() == 0);
    assert(blanks(text.skip(text.len() as int)) == 0);
    assert(gathered(text, wanted) == Some(seq![fields[at]]));
    assert(seq![fields[at]].last() == fields[at]);
}

/// A body that was written from an object with some model is not rewritten to that model.
proof fn model_is_settled(text: Seq<u8>, fields: Seq<(Seq<char>, Tree)>, at: int, model: Seq<char>)
    requires
        document_read(text) matches Some(again) ==> same_strings(Tree::Object(fields), again),
        ascending(fields),
        0 <= at < fields.len(),
        fields[at] == ("model"@, Tree::Text(model)),
    ensures
        rewritten(text, model) is None,
{
    if let Some(Tree::Object(others)) = document_read(text) {
        assert(others[at] == fields[at]);
        assert(holds(others, "model"@));
        let i = position(others, "model"@);
        assert(others[i].0 == fields[i].0);
        ascending_unique(fields, at, i);
    }
}

/// Rewriting the model of a body replaces the model and keeps every other field as it was.
pub proof fn rewriting_keeps_other_fields(
    body: Seq<u8>,
    model: Seq<char>,
    fields: Seq<(Seq<char>, Tree)>,
    now: Seq<(Seq<char>, Tree)>,
)
    requires
        document_read(body) == Some(Tree::Object(fields)),
        ascending(fields),
        rewritten(body, model) == Some(Tree::Object(now)),
    ensures
        assignments(now) == assignments(fields).insert("model"@, Tree::Text(model)),
        assignments(fields).dom().contains("model"@),
{
    replaced(fields, position(fields, "model"@), "model"@, Tree::Text(model));
}

/// A body that is read as an object with a model is rewritten for every model but exactly the one
/// it has, and then differs from what it was read as in its model alone.
pub proof fn every_other_model_is_rewritten(
    body: Seq<u8>,
    fields: Seq<(Seq<char>, Tree)>,
    at: int,
    model: Seq<char>,
)
    requires
        document_read(body) == Some(Tree::Object(fields)),
        ascending(fields),
        0 <= at < fields.len(),
        fields[at].0 == "model"@,
    ensures
        rewritten(body, model) == (if fields[at].1 == Tree::Text(model) {
            None
        } else {
            Some(Tree::Object(fields.update(at, ("model"@, Tree::Text(model)))))
        }),
{
    ascending_unique(fields, at, position(fields, "model"@));
}

/// A body that is not read as an object, or as one without a model, is never rewritten.
pub proof fn body_without_a_model_is_never_rewritten(body: Seq<u8>, model: Seq<char>)
    requires
        document_read(body) matches Some(Tree::Object(fields)) ==> forall|i: int|
            0 <= i < fields.len() ==> (#[trigger] fields[i]).0 != "model"@,
    ensures
        rewritten(body, model) is None,
{
}

/// The model of a body is one of its top-level `model` fields, character for character: the last
/// that is a text with something in it. It has none exactly when no such field is one, or when it
/// cannot be read as an object.
pub proof fn last_given_model_counts(body: Seq<u8>, found: Seq<(Seq<char>, Tree)>)
    requires
        gathered(body, set!["model"@]) is Some ==> gathered(body, set!["model"@]) == Some(found),
    ensures
        gathered(body, set!["model"@]) is None ==> model_in(body) is None,
        gathered(body, set!["model"@]) is Some ==> match model_in(body) {
            Some(model) => model.len() > 0 && exists|i: int|
                #![trigger found[i]]
                0 <= i < found.len() && found[i].1 == Tree::Text(model) && forall|k: int|
                    #![trigger found[k]]
                    i < k < found.len() ==> !(found[k].1 matches Tree::Text(text) && text.len() > 0),
            None => forall|k: int|
                #![trigger found[k]]
                0 <= k < found.len() ==> !(found[k].1 matches Tree::Text(text) && text.len() > 0),
        },
{
    last_text_stands_last(found);
}

proof fn last_text_stands_last(found: Seq<(Seq<char>, Tree)>)
    ensures
        match last_text(found) {
            Some(model) => model.len() > 0 && exists|i: int|
                #![trigger found[i]]
                0 <= i < found.len() && found[i].1 == Tree::Text(model) && forall|k: int|
                    #![trigger found[k]]
                    i < k < found.len() ==> !(found[k].1 matches Tree::Text(text) && text.len() > 0),
            None => forall|k: int|
                #![trigger found[k]]
                0 <= k < found.len() ==> !(found[k].1 matches Tree::Text(text) && text.len() > 0),
        },
    decreases found.len(),
{
    if found.len() > 0 {
        let front = found.drop_last();
        last_text_stands_last(front);
        match found.last().1 {
            Tree::Text(text) if text.len() > 0 => {
                assert(found[found.len() - 1].1 == Tree::Text(text));
            },
            _ => {
                if let Some(model) = last_text(front) {
                    let i = choose|i: int|
                        #![trigger front[i]]
                        0 <= i < front.len() && front[i].1 == Tree::Text(model) && forall|k: int|
                            #![trigger front[k]]
                            i < k < front.len() ==> !(front[k].1 matches Tree::Text(text)
                                && text.len() > 0);
                    assert(found[i].1 == Tree::Text(model));
                    assert forall|k: int| #![trigger found[k]] i < k < found.len() implies !(
                    found[k].1 matches Tree::Text(text) && text.len() > 0) by {
                        if k < front.len() {
                            assert(front[k] == found[k]);
                        }
                    }
                } else {
                    assert forall|k: int| #![trigger found[k]] 0 <= k < found.len() implies !(
                    found[k].1 matches Tree::Text(text) && text.len() > 0) by {
                        if k < front.len() {
                            assert(front[k] == found[k]);
                        }
                    }
                }
            },
        }
    }
}

/// Rewrite the top-level `model` field of a request body when needed.
///
/// - Body is not a JSON object or has no `model` field: returns `None` (caller passes the body
///   through).
/// - `model` already equals the target: returns `None` (avoids a pointless re-serialization).
/// - Otherwise the rewritten body is returned; every other field keeps its value, and the new
///   model is what [`extract_model`] reads from it. There is nothing more to rewrite in it.
///
/// Note: re-serialization turns the JSON key order into lexicographic order (semantically
/// identical).
pub fn try_rewrite_model(body: &[u8], new_model: &str) -> (r: Option<Vec<u8>>)
    ensures
        match r {
            Some(text) => {
                &&& rewritten(body@, new_model@) matches Some(tree)
                &&& text@ == json_text(tree)
                &&& exists|fields: Seq<(Seq<char>, Tree)>, at: int|
                    {
                        &&& document_read(body@) == Some(Tree::Object(fields))
                        &&& 0 <= at < fields.len()
                        &&& fields[at].0 == "model"@
                        &&& fields[at].1 != Tree::Text(new_model@)
                        &&& text@ == json_text(
                            Tree::Object(
                                #[trigger] fields.update(at, ("model"@, Tree::Text(new_model@))),
                            ),
                        )
                    }
                &&& new_model@.len() > 0 ==> model_in(text@) == Some(new_model@)
                &&& rewritten(text@, new_model@) is None
            },
            None => {
                &&& rewritten(body@, new_model@) is None
                &&& document_read(body@) matches Some(Tree::Object(fields)) ==> forall|i: int|
                    #![trigger fields[i]]
                    0 <= i < fields.len() && fields[i].0 == "model"@ ==> fields[i].1 == Tree::Text(
                        new_model@,
                    )
            },
        },
{
    let document = match parse(body) {
        Some(document) => document,
        None => {
            return None;
        },
    };
    let mut fields = match document {
        Json::Object(fields) => fields,
        _ => {
            return None;
        },
    };
    let ghost trees = fields_of(fields@);
    proof {
        object_view(fields);
        fields_printable(trees, MAX_LEVELS as nat);
    }
    let mut at: usize = 0;
    while at < fields.len() && !same_text(fields[at].0.as_str(), "model")
        invariant
            at <= fields@.len(),
            trees == fields_of(fields@),
            forall|k: int| 0 <= k < at ==> (#[trigger] trees[k]).0 != "model"@,
        decreases fields@.len() - at,
    {
        at = at + 1;
    }
    if at == fields.len() {
        return None;
    }
    assert(trees[at as int].0 == "model"@);
    proof {
        assert(holds(trees, "model"@));
        ascending_unique(trees, at as int, position(trees, "model"@));
        assert forall|i: int| #![trigger trees[i]] 0 <= i < trees.len() && trees[i].0
            == "model"@ implies i == at by {
            ascending_unique(trees, at as int, i);
        }
    }
    if let Json::Text(current) = &fields[at].1 {
        if same_text(current.as_str(), new_model) {
            return None;
        }
    }
    fields.set(at, ("model".to_string(), Json::Text(new_model.to_string())));
    let ghost now = trees.update(at as int, ("model"@, Tree::Text(new_model@)));
    assert(fields_of(fields@) == now);
    proof {
        object_view(fields);
    }
    let document = Json::Object(fields);
    assert(ascending(now)) by {
        assert forall|i: int, j: int|
            #![trigger now[i], now[j]]
            0 <= i < j < now.len() implies crate::text::before(now[i].0, now[j].0) by {
            assert(now[i].0 == trees[i].0 && now[j].0 == trees[j].0);
        }
    }
    proof {
        let inner = (MAX_LEVELS - 1) as nat;
        assert forall|i: int| 0 <= i < now.len() implies printable((#[trigger] now[i]).1, inner) by {
            if i != at {
                assert(now[i] == trees[i]);
            }
        }
        object_printable(now, MAX_LEVELS as nat);
    }
    let text = print(&document);
    proof {
        let length = text.len();
        model_is_settled(text@, now, at as int, new_model@);
        if new_model@.len() > 0 {
            written_model(text@, now, at as int, new_model@);
        }
    }
    Some(text)
}

/// A body whose only field is `model`, with blanks wherever they may stand before its value, names
/// the text that is read from it, character for character.
pub proof fn model_field_is_read(
    name: Seq<u8>,
    gap: Seq<u8>,
    value: Seq<u8>,
    model: Seq<char>,
)
    requires
        name.len() + gap.len() + value.len() + 3 <= usize::MAX,
        all_blank(gap),
        name.len() > 0,
        name[0] == 0x22,
        string_read(name + gap + seq![0x3au8] + value + seq![0x7du8]) == Reading::Done(
            "model"@,
            name.len() as usize,
        ),
        value_read(value + seq![0x7du8]) == Reading::Done(Tree::Text(model), value.len() as usize),
        model.len() > 0,
    ensures
        model_in(seq![0x7bu8] + (name + gap + seq![0x3au8] + value) + seq![0x7du8]) == Some(model),
{
    let wanted = set!["model"@];
    let s = Gathering { wanted, found: Seq::empty() };
    let found = seq![("model"@, Tree::Text(model))];
    let field = name + gap + seq![0x3au8] + value;
    let closed = value + seq![0x7du8];
    wanted_fields_are_kept(s, "model"@, gap, closed);
    assert((field + seq![0x7du8]).skip(name.len() as int) =~= gap + seq![0x3au8] + closed);
    assert(s.found.push(("model"@, Tree::Text(model))) =~= found);
    object_of_one_field::<Gathered>(
        field,
        s,
        "model"@,
        name.len() as usize,
        Gathering { wanted, found },
    );
    fields_are_gathered_from_the_whole_body(
        seq![0x7bu8] + field + seq![0x7du8],
        wanted,
    );
    assert(found.last() == ("model"@, Tree::Text(model)));
}

} // verus!
