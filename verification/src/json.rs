//! JSON values: their parts, their text, and their numbers as decimal strings.
use crate::codec::{
    distinct_keys, fragments_model, joined, json_fragments, json_of, json_read,
    lemma_member_counts, lemma_newline_free_parts, lemma_no_newline_byte, nests_within,
    newline_free, number_from, number_from_signed, number_text, number_to_text, on_one_line,
    open_value, readable, reads_back, seal_value, value_from_slice, value_to_fragments,
    value_to_text, Node,
};
use crate::text::{
    canonical, decimal, decimal_text_is_exact, decimal_text_reads_back, decimal_value,
};
use vstd::prelude::*;

verus! {

/// A JSON value as mathematics sees it. A number is its text; an object has no order.
pub enum JsonView {
    Null,
    Bool(bool),
    Number(Seq<char>),
    Text(Seq<char>),
    Array(Seq<JsonView>),
    Object(Map<Seq<char>, JsonView>),
}

/// A JSON value.
#[derive(Debug, PartialEq)]
pub enum Json {
    Null,
    Bool(bool),
    Number(serde_json::Number),
    Text(String),
    Array(Vec<Json>),
    /// The members; of two with one key the later counts.
    Object(Vec<(String, Json)>),
}

impl View for Json {
    type V = JsonView;

    open spec fn view(&self) -> JsonView {
        self.model()
    }
}

impl Json {
    pub open spec fn model(self) -> JsonView
        decreases self,
    {
        match self {
            Json::Null => JsonView::Null,
            Json::Bool(b) => JsonView::Bool(b),
            Json::Number(number) => JsonView::Number(number_text(number)),
            Json::Text(text) => JsonView::Text(text@),
            Json::Array(items) => JsonView::Array(Json::items_model(items@)),
            Json::Object(members) => JsonView::Object(Json::members_model(members@)),
        }
    }

    pub open spec fn items_model(items: Seq<Json>) -> Seq<JsonView>
        decreases items,
    {
        Seq::new(
            items.len(),
            |i: int|
                if 0 <= i < items.len() {
                    items[i].model()
                } else {
                    JsonView::Null
                },
        )
    }

    pub open spec fn members_model(members: Seq<(String, Json)>) -> Map<Seq<char>, JsonView>
        decreases members,
    {
        if members.len() == 0 {
            Map::empty()
        } else {
            Json::members_model(members.drop_last()).insert(
                members.last().0@,
                members.last().1.model(),
            )
        }
    }

    /// The number `n`.
    pub fn unsigned(n: u64) -> (r: Json)
        ensures
            r@ == JsonView::Number(decimal(n as int)),
    {
        Json::Number(number_from(n))
    }

    /// The number `n`.
    pub fn signed(n: i64) -> (r: Json)
        ensures
            r@ == JsonView::Number(decimal(n as int)),
    {
        Json::Number(number_from_signed(n))
    }

    /// A string.
    pub fn text(text: &str) -> (r: Json)
        ensures
            r@ == JsonView::Text(text@),
    {
        Json::Text(text.to_owned())
    }

    /// The value that a `serde_json::Value` holds.
    pub fn from_value(value: serde_json::Value) -> (r: Json)
        ensures
            r@ == json_of(value),
        decreases json_of(value),
    {
        match open_value(value) {
            Node::Null => Json::Null,
            Node::Bool(b) => Json::Bool(b),
            Node::Number(number) => Json::Number(number),
            Node::Text(text) => Json::Text(text),
            Node::Array(items) => {
                let ghost views = json_of(value)->Array_0;
                let mut out: Vec<Json> = Vec::new();
                for item in it: items
                    invariant
                        json_of(value) == JsonView::Array(views),
                        views == Seq::new(it.seq().len(), |i: int| json_of(it.seq()[i])),
                        Json::items_model(out@) == views.take(it.index()),
                {
                    let ghost before = out@;
                    assert(json_of(item) == views[it.index()]);
                    assert(decreases_to!(json_of(value) => json_of(value)->Array_0));
                    assert(decreases_to!(views => views[it.index()]));
                    out.push(Json::from_value(item));
                    proof {
                        lemma_items_push(before, out@.last());
                    }
                    assert(views.take(it.index()).push(views[it.index()]) =~= views.take(
                        it.index() + 1,
                    ));
                }
                assert(views.take(views.len() as int) =~= views);
                Json::Array(out)
            },
            Node::Object(members) => {
                let ghost all = members@;
                let mut out: Vec<(String, Json)> = Vec::new();
                for member in it: members
                    invariant
                        it.seq() == all,
                        json_of(value) == JsonView::Object(Node::members_model(all)),
                        distinct_keys(all),
                        Json::members_model(out@) == Node::members_model(all.take(it.index())),
                {
                    let ghost before = out@;
                    assert(all.take(it.index() + 1).drop_last() =~= all.take(it.index()));
                    proof {
                        lemma_member_counts(all, it.index());
                    }
                    let (key, item) = member;
                    assert(decreases_to!(json_of(value) => json_of(value)->Object_0));
                    assert(decreases_to!(json_of(value)->Object_0 => json_of(value)->Object_0[key@]));
                    out.push((key, Json::from_value(item)));
                    assert(out@.drop_last() =~= before);
                }
                assert(all.take(all.len() as int) =~= all);
                Json::Object(out)
            },
        }
    }

    /// The `serde_json::Value` that holds this value.
    pub fn into_value(self) -> (r: serde_json::Value)
        ensures
            json_of(r) == self@,
        decreases self,
    {
        match self {
            Json::Null => seal_value(Node::Null),
            Json::Bool(b) => seal_value(Node::Bool(b)),
            Json::Number(number) => seal_value(Node::Number(number)),
            Json::Text(text) => seal_value(Node::Text(text)),
            Json::Array(items) => {
                let ghost all = items@;
                let mut out: Vec<serde_json::Value> = Vec::new();
                for item in it: items
                    invariant
                        it.seq() == all,
                        self == Json::Array(items),
                        items@ == all,
                        out@.len() == it.index(),
                        forall|i: int| 0 <= i < out@.len() ==> json_of(#[trigger] out@[i]) == all[i]@,
                {
                    proof {
                        lemma_item_is_smaller(self, it.index());
                    }
                    out.push(item.into_value());
                }
                assert(Node::Array(out).model()->Array_0 =~= Json::items_model(all));
                seal_value(Node::Array(out))
            },
            Json::Object(members) => {
                let ghost all = members@;
                let mut out: Vec<(String, serde_json::Value)> = Vec::new();
                for member in it: members
                    invariant
                        it.seq() == all,
                        self == Json::Object(members),
                        members@ == all,
                        Node::members_model(out@) == Json::members_model(all.take(it.index())),
                {
                    let ghost before = out@;
                    assert(all.take(it.index() + 1).drop_last() =~= all.take(it.index()));
                    proof {
                        lemma_member_is_smaller(self, it.index());
                    }
                    let (key, item) = member;
                    out.push((key, item.into_value()));
                    assert(out@.drop_last() =~= before);
                }
                assert(all.take(all.len() as int) =~= all);
                seal_value(Node::Object(out))
            },
        }
    }

    /// The compact text of this value, in the pieces in which it is written.
    pub fn into_fragments(self) -> (r: Vec<Vec<u8>>)
        ensures
            fragments_model(r@) == json_fragments(self@),
            newline_free(json_fragments(self@)),
            reads_back(self@),
    {
        let value = self.into_value();
        value_to_fragments(&value)
    }

    /// The compact text of this value.
    pub fn into_text(self) -> (r: String)
        ensures
            vstd::utf8::encode_utf8(r@) == joined(json_fragments(self@)),
            on_one_line(r@),
            newline_free(json_fragments(self@)),
            reads_back(self@),
    {
        let value = self.into_value();
        let text = value_to_text(&value);
        proof {
            lemma_no_newline_byte(text@);
            lemma_newline_free_parts(json_fragments(self@));
        }
        text
    }

    /// The value that a text holds, where it is JSON.
    pub fn read(text: &[u8]) -> (r: Option<Json>)
        ensures
            match r {
                Some(json) => json_read(text@) == Some(json@),
                None => json_read(text@) is None,
            },
    {
        match value_from_slice(text) {
            Some(value) => Some(Json::from_value(value)),
            None => None,
        }
    }
}

/// A fallible construction, with the value it made as mathematics sees it.
pub open spec fn outcome<E>(result: Result<Json, E>) -> Result<JsonView, E> {
    match result {
        Ok(json) => Ok(json@),
        Err(error) => Err(error),
    }
}

/// Adds a member to an object.
pub fn put(members: &mut Vec<(String, Json)>, key: &str, value: Json)
    ensures
        Json::members_model(final(members)@) == Json::members_model(old(members)@).insert(
            key@,
            value@,
        ),
{
    members.push((key.to_owned(), value));
    assert(members@.drop_last() =~= old(members)@);
}

/// `value` with every number in it, however deep, replaced by the string of its text.
pub open spec fn with_decimal_text(value: JsonView) -> JsonView
    decreases value,
{
    match value {
        JsonView::Number(text) => JsonView::Text(text),
        JsonView::Array(items) => JsonView::Array(
            Seq::new(
                items.len(),
                |i: int|
                    if 0 <= i < items.len() {
                        with_decimal_text(items[i])
                    } else {
                        JsonView::Null
                    },
            ),
        ),
        JsonView::Object(members) => JsonView::Object(
            Map::new(
                |key: Seq<char>| members.contains_key(key),
                |key: Seq<char>|
                    if members.contains_key(key) {
                        with_decimal_text(members[key])
                    } else {
                        JsonView::Null
                    },
            ),
        ),
        other => other,
    }
}

/// Reports must survive JavaScript consumers without rounding a huge sparse size, inode or
/// timestamp: numeric inventory values become canonical decimal strings.
pub fn decimal_numbers(value: Json) -> (r: Json)
    ensures
        r@ == with_decimal_text(value@),
    decreases value,
{
    match value {
        Json::Number(number) => Json::Text(number_to_text(&number)),
        Json::Array(items) => {
            let ghost all = items@;
            let mut out: Vec<Json> = Vec::new();
            for item in it: items
                invariant
                    it.seq() == all,
                    value == Json::Array(items),
                    items@ == all,
                    out@.len() == it.index(),
                    forall|i: int|
                        0 <= i < out@.len() ==> (#[trigger] out@[i])@ == with_decimal_text(all[i]@),
            {
                proof {
                    lemma_item_is_smaller(value, it.index());
                }
                out.push(decimal_numbers(item));
            }
            assert(Json::items_model(out@) =~= with_decimal_text(value@)->Array_0);
            Json::Array(out)
        },
        Json::Object(members) => {
            let ghost all = members@;
            let mut out: Vec<(String, Json)> = Vec::new();
            assert(with_decimal_text(JsonView::Object(Map::empty()))->Object_0 =~= Map::empty());
            for member in it: members
                invariant
                    it.seq() == all,
                    value == Json::Object(members),
                    members@ == all,
                    JsonView::Object(Json::members_model(out@)) == with_decimal_text(
                        JsonView::Object(Json::members_model(all.take(it.index()))),
                    ),
            {
                let ghost before = out@;
                assert(all.take(it.index() + 1).drop_last() =~= all.take(it.index()));
                proof {
                    lemma_member_is_smaller(value, it.index());
                }
                let (key, item) = member;
                out.push((key, decimal_numbers(item)));
                assert(out@.drop_last() =~= before);
                assert(Json::members_model(out@) =~= with_decimal_text(
                    JsonView::Object(Json::members_model(all.take(it.index() + 1))),
                )->Object_0);
            }
            assert(all.take(all.len() as int) =~= all);
            Json::Object(out)
        },
        other => other,
    }
}

/// No number occurs in `value`, however deep.
pub open spec fn holds_no_number(value: JsonView) -> bool
    decreases value,
{
    match value {
        JsonView::Number(text) => false,
        JsonView::Array(items) => forall|i: int|
            0 <= i < items.len() ==> holds_no_number(#[trigger] items[i]),
        JsonView::Object(members) => forall|key: Seq<char>| #[trigger]
            members.contains_key(key) ==> holds_no_number(members[key]),
        other => true,
    }
}

/// After `decimal_numbers` no consumer meets a number.
pub proof fn decimal_numbers_leaves_no_number(value: JsonView)
    ensures
        holds_no_number(with_decimal_text(value)),
    decreases value,
{
    match value {
        JsonView::Array(items) => {
            let out = with_decimal_text(value)->Array_0;
            assert forall|i: int| 0 <= i < out.len() implies holds_no_number(#[trigger] out[i]) by {
                decimal_numbers_leaves_no_number(items[i]);
            }
        },
        JsonView::Object(members) => {
            let out = with_decimal_text(value)->Object_0;
            assert forall|key: Seq<char>| #[trigger]
                out.contains_key(key) implies holds_no_number(out[key]) by {
                decimal_numbers_leaves_no_number(members[key]);
            }
        },
        _ => {},
    }
}

/// After `decimal_numbers` a value is readable, whatever numbers it held, unless it is nested
/// too deeply.
pub proof fn decimal_numbers_makes_readable(value: JsonView, depth: nat)
    requires
        nests_within(value, depth),
    ensures
        readable(with_decimal_text(value), depth),
    decreases value,
{
    match value {
        JsonView::Array(items) => {
            let out = with_decimal_text(value)->Array_0;
            assert forall|i: int| 0 <= i < out.len() implies readable(
                #[trigger] out[i],
                (depth - 1) as nat,
            ) by {
                decimal_numbers_makes_readable(items[i], (depth - 1) as nat);
            }
        },
        JsonView::Object(members) => {
            let out = with_decimal_text(value)->Object_0;
            assert forall|key: Seq<char>| #[trigger] out.contains_key(key) implies readable(
                out[key],
                (depth - 1) as nat,
            ) by {
                assert(members.contains_key(key));
                decimal_numbers_makes_readable(members[key], (depth - 1) as nat);
            }
        },
        _ => {},
    }
}

/// A value without numbers passes through `decimal_numbers` unchanged; in particular a
/// second pass changes nothing.
pub proof fn decimal_numbers_changes_only_numbers(value: JsonView)
    requires
        holds_no_number(value),
    ensures
        with_decimal_text(value) == value,
    decreases value,
{
    match value {
        JsonView::Array(items) => {
            assert forall|i: int| 0 <= i < items.len() implies with_decimal_text(
                #[trigger] items[i],
            ) == items[i] by {
                decimal_numbers_changes_only_numbers(items[i]);
            }
            assert(with_decimal_text(value)->Array_0 =~= items);
        },
        JsonView::Object(members) => {
            assert forall|key: Seq<char>| #[trigger] members.contains_key(key) implies
                with_decimal_text(members[key]) == members[key] by {
                decimal_numbers_changes_only_numbers(members[key]);
            }
            assert(with_decimal_text(value)->Object_0 =~= members);
        },
        _ => {},
    }
}

/// An integer becomes its canonical decimal string, which reads back as that integer.
pub proof fn decimal_numbers_keeps_integers_exact(n: int)
    ensures
        with_decimal_text(JsonView::Number(decimal(n))) == JsonView::Text(decimal(n)),
        canonical(decimal(n)),
        decimal_value(decimal(n)) == n,
{
    decimal_text_reads_back(n);
}

/// Counters come out exact: two of them become the same string only if they are equal.
pub proof fn decimal_numbers_keeps_counters_apart(a: int, b: int)
    requires
        with_decimal_text(JsonView::Number(decimal(a))) == with_decimal_text(
            JsonView::Number(decimal(b)),
        ),
    ensures
        a == b,
{
    decimal_text_is_exact(a, b);
}

proof fn lemma_item_is_smaller(value: Json, i: int)
    requires
        value matches Json::Array(items) && 0 <= i < items@.len(),
    ensures
        decreases_to!(value => value->Array_0@[i]),
{
    assert(decreases_to!(value => value->Array_0));
    assert(decreases_to!(value->Array_0 => value->Array_0@));
    assert(decreases_to!(value->Array_0@ => value->Array_0@[i]));
}

proof fn lemma_member_is_smaller(value: Json, i: int)
    requires
        value matches Json::Object(members) && 0 <= i < members@.len(),
    ensures
        decreases_to!(value => value->Object_0@[i].1),
{
    let members = value->Object_0@;
    assert(decreases_to!(value => value->Object_0));
    assert(decreases_to!(value->Object_0 => value->Object_0@));
    assert(decreases_to!(members => members[i]));
    assert(decreases_to!(members[i] => members[i].1));
}

proof fn lemma_items_push(items: Seq<Json>, item: Json)
    ensures
        Json::items_model(items.push(item)) == Json::items_model(items).push(item@),
{
    assert(Json::items_model(items.push(item)) =~= Json::items_model(items).push(item@));
}

/// One step down into a value.
pub enum Step {
    /// To an item of an array.
    Item(int),
    /// To a member of an object.
    Member(Seq<char>),
}

/// What a value holds at the end of a way down into it, where the way leads anywhere.
pub open spec fn found_at(value: JsonView, way: Seq<Step>) -> Option<JsonView>
    decreases way.len(),
{
    if way.len() == 0 {
        Some(value)
    } else {
        match way[0] {
            Step::Item(i) => match value {
                JsonView::Array(items) if 0 <= i < items.len() => found_at(
                    items[i],
                    way.drop_first(),
                ),
                _ => None,
            },
            Step::Member(key) => match value {
                JsonView::Object(members) if members.contains_key(key) => found_at(
                    members[key],
                    way.drop_first(),
                ),
                _ => None,
            },
        }
    }
}

/// `decimal_numbers` changes numbers and nothing else, however deep they are. Whatever way is
/// taken down into a value: it leads somewhere after as before; where it led to a number it
/// leads to the string of the very same text; where it led to an array or an object it leads to
/// one of the same length or with the same keys; and anything else is still there as it was.
pub proof fn decimal_numbers_is_structural(value: JsonView, way: Seq<Step>)
    ensures
        match found_at(value, way) {
            None => found_at(with_decimal_text(value), way) is None,
            Some(JsonView::Null) => found_at(with_decimal_text(value), way) == Some(JsonView::Null),
            Some(JsonView::Bool(b)) => found_at(with_decimal_text(value), way) == Some(
                JsonView::Bool(b),
            ),
            Some(JsonView::Text(text)) => found_at(with_decimal_text(value), way) == Some(
                JsonView::Text(text),
            ),
            Some(JsonView::Number(text)) => found_at(with_decimal_text(value), way) == Some(
                JsonView::Text(text),
            ),
            Some(JsonView::Array(items)) => {
                &&& found_at(with_decimal_text(value), way) matches Some(JsonView::Array(others))
                &&& others.len() == items.len()
            },
            Some(JsonView::Object(members)) => {
                &&& found_at(with_decimal_text(value), way) matches Some(JsonView::Object(others))
                &&& others.dom() == members.dom()
            },
        },
    decreases way.len(),
{
    let out = with_decimal_text(value);
    if way.len() == 0 {
        if let JsonView::Object(members) = value {
            assert(out->Object_0.dom() =~= members.dom());
        }
    } else {
        match way[0] {
            Step::Item(i) => {
                if let JsonView::Array(items) = value {
                    if 0 <= i < items.len() {
                        assert(out->Array_0[i] == with_decimal_text(items[i]));
                        decimal_numbers_is_structural(items[i], way.drop_first());
                    }
                }
            },
            Step::Member(key) => {
                if let JsonView::Object(members) = value {
                    if members.contains_key(key) {
                        assert(out->Object_0[key] == with_decimal_text(members[key]));
                        decimal_numbers_is_structural(members[key], way.drop_first());
                    }
                }
            },
        }
    }
}

/// Counters come out exact wherever they stand: an integer at the end of any way down into a
/// value becomes, at that place, a canonical decimal string that reads back as that integer.
pub proof fn nested_integers_stay_exact(value: JsonView, way: Seq<Step>, n: int)
    requires
        found_at(value, way) == Some(JsonView::Number(decimal(n))),
    ensures
        found_at(with_decimal_text(value), way) matches Some(JsonView::Text(text)) && canonical(
            text,
        ) && decimal_value(text) == n,
{
    decimal_numbers_is_structural(value, way);
    decimal_text_reads_back(n);
}

/// What a value shows is what it is made of: a number its text, an array each of its items in
/// order, an object under each of its keys the last member that has it.
pub proof fn value_shows_its_parts(json: Json)
    ensures
        match json {
            Json::Null => json@ == JsonView::Null,
            Json::Bool(b) => json@ == JsonView::Bool(b),
            Json::Number(number) => json@ == JsonView::Number(number_text(number)),
            Json::Text(text) => json@ == JsonView::Text(text@),
            Json::Array(items) => {
                &&& json@ matches JsonView::Array(views)
                &&& views.len() == items@.len()
                &&& forall|i: int| 0 <= i < items@.len() ==> views[i] == (#[trigger] items@[i])@
            },
            Json::Object(members) => {
                &&& json@ matches JsonView::Object(views)
                &&& forall|i: int|
                    0 <= i < members@.len() && (forall|j: int|
                        i < j < members@.len() ==> (#[trigger] members@[j]).0@ != members@[i].0@)
                        ==> views.contains_key((#[trigger] members@[i]).0@) && views[members@[i].0@]
                        == members@[i].1@
                &&& forall|key: Seq<char>| #[trigger]
                    views.contains_key(key) ==> exists|i: int|
                        0 <= i < members@.len() && (#[trigger] members@[i]).0@ == key
            },
        },
{
    if let Json::Object(members) = json {
        let views = Json::members_model(members@);
        assert forall|i: int|
            0 <= i < members@.len() && (forall|j: int|
                i < j < members@.len() ==> (#[trigger] members@[j]).0@
                    != members@[i].0@) implies views.contains_key((#[trigger] members@[i]).0@)
            && views[members@[i].0@] == members@[i].1@ by {
            lemma_last_member_counts(members@, i);
        }
        assert forall|key: Seq<char>| #[trigger] views.contains_key(key) implies exists|i: int|
            0 <= i < members@.len() && (#[trigger] members@[i]).0@ == key by {
            lemma_key_has_a_member(members@, key);
        }
    }
}

proof fn lemma_last_member_counts(members: Seq<(String, Json)>, i: int)
    requires
        0 <= i < members.len(),
        forall|j: int| i < j < members.len() ==> (#[trigger] members[j]).0@ != members[i].0@,
    ensures
        Json::members_model(members).contains_key(members[i].0@),
        Json::members_model(members)[members[i].0@] == members[i].1@,
    decreases members.len(),
{
    if i < members.len() - 1 {
        let before = members.drop_last();
        assert forall|j: int| i < j < before.len() implies (#[trigger] before[j]).0@
            != before[i].0@ by {
            assert(before[j] == members[j]);
        }
        lemma_last_member_counts(before, i);
        assert(members[members.len() - 1].0@ != members[i].0@);
    }
}

proof fn lemma_key_has_a_member(members: Seq<(String, Json)>, key: Seq<char>)
    requires
        Json::members_model(members).contains_key(key),
    ensures
        exists|i: int| 0 <= i < members.len() && (#[trigger] members[i]).0@ == key,
    decreases members.len(),
{
    if members.len() > 0 {
        if members[members.len() - 1].0@ != key {
            let before = members.drop_last();
            lemma_key_has_a_member(before, key);
            let i = choose|i: int| 0 <= i < before.len() && (#[trigger] before[i]).0@ == key;
            assert(members[i].0@ == key);
        }
    }
}

/// A fallible construction shows the value it made, or the error it ended in.
pub proof fn outcome_shows_the_result<E>(result: Result<Json, E>)
    ensures
        result matches Ok(json) ==> outcome(result) == Ok::<JsonView, E>(json@),
        result matches Err(error) ==> outcome(result) == Err::<JsonView, E>(error),
{
}

} // verus!
