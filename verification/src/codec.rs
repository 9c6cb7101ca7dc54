//! The boundary to `serde_json`: the types it owns and the calls made into it.
//!
//! A `serde_json::Value` is opaque to the verifier. [`json_of`] names the JSON value it
//! holds; the functions here take one apart, put one together, render one and read one. What
//! they state holds of `serde_json` with its default features.
use crate::json::JsonView;
use crate::text::decimal;
use vstd::prelude::*;

verus! {

#[verifier::external_type_specification]
#[verifier::external_body]
pub struct ExIoError(std::io::Error);

#[verifier::external_type_specification]
#[verifier::external_body]
pub struct ExNumber(serde_json::Number);

#[verifier::external_type_specification]
#[verifier::external_body]
pub struct ExValue(serde_json::Value);

/// The text that `serde_json` displays a number as.
pub uninterp spec fn number_text(number: serde_json::Number) -> Seq<char>;

/// The JSON value that a `serde_json::Value` holds.
pub uninterp spec fn json_of(value: serde_json::Value) -> JsonView;

/// The byte strings that `serde_json::to_writer` hands to its writer, in order, for a value.
pub uninterp spec fn json_fragments(value: JsonView) -> Seq<Seq<u8>>;

/// The JSON value that `serde_json::from_slice` reads from a text, where it reads one.
pub uninterp spec fn json_read(text: Seq<u8>) -> Option<JsonView>;

/// The outermost layer of a JSON value; what lies below is still a `serde_json::Value`.
pub enum Node {
    Null,
    Bool(bool),
    Number(serde_json::Number),
    Text(String),
    Array(Vec<serde_json::Value>),
    Object(Vec<(String, serde_json::Value)>),
}

impl Node {
    /// The JSON value that a layer stands for.
    pub open spec fn model(self) -> JsonView {
        match self {
            Node::Null => JsonView::Null,
            Node::Bool(b) => JsonView::Bool(b),
            Node::Number(number) => JsonView::Number(number_text(number)),
            Node::Text(text) => JsonView::Text(text@),
            Node::Array(items) => JsonView::Array(
                Seq::new(items@.len(), |i: int| json_of(items@[i])),
            ),
            Node::Object(members) => JsonView::Object(Node::members_model(members@)),
        }
    }

    /// The members of an object; of two members with one key the later counts.
    pub open spec fn members_model(members: Seq<(String, serde_json::Value)>) -> Map<
        Seq<char>,
        JsonView,
    >
        decreases members.len(),
    {
        if members.len() == 0 {
            Map::empty()
        } else {
            Node::members_model(members.drop_last()).insert(
                members.last().0@,
                json_of(members.last().1),
            )
        }
    }
}

/// A writer that keeps each byte string it is handed as an entry of its own.
pub struct FragmentSink {
    pub fragments: Vec<Vec<u8>>,
}

impl std::io::Write for FragmentSink {
    /// Takes the whole of `bytes`.
    fn write(&mut self, bytes: &[u8]) -> (r: std::io::Result<usize>)
        ensures
            r == Ok::<usize, std::io::Error>(bytes@.len() as usize),
            final(self).fragments@.len() == old(self).fragments@.len() + 1,
            final(self).fragments@.drop_last() == old(self).fragments@,
            final(self).fragments@.last()@ == bytes@,
    {
        self.fragments.push(vstd::slice::slice_to_vec(bytes));
        assert(self.fragments@.drop_last() =~= old(self).fragments@);
        Ok(bytes.len())
    }

    /// Nothing is held back.
    fn flush(&mut self) -> (r: std::io::Result<()>)
        ensures
            r is Ok,
            *final(self) == *old(self),
    {
        Ok(())
    }
}

/// `Number::from(u64)`. The number displays as the canonical decimal text of `n`
/// (`serde_json` keeps it as a `u64` and formats it with `itoa`).
#[verifier::external_body]
pub(crate) fn number_from(n: u64) -> (r: serde_json::Number)
    ensures
        number_text(r) == decimal(n as int),
{
    serde_json::Number::from(n)
}

/// `Number::from(i64)`. The number displays as the canonical decimal text of `n`
/// (`serde_json` keeps it as a `u64` or a negative `i64` and formats either with `itoa`).
#[verifier::external_body]
pub(crate) fn number_from_signed(n: i64) -> (r: serde_json::Number)
    ensures
        number_text(r) == decimal(n as int),
{
    serde_json::Number::from(n)
}

/// `Number`'s `Display`, through `to_string`. The contract names the text.
#[verifier::external_body]
pub(crate) fn number_to_text(number: &serde_json::Number) -> (r: String)
    ensures
        r@ == number_text(*number),
{
    number.to_string()
}

/// Takes a `serde_json::Value` apart, one layer deep: each variant's content is moved out,
/// an object's entries in the order in which its `Map` is walked. A `Map` holds each key
/// once.
#[verifier::external_body]
pub(crate) fn open_value(value: serde_json::Value) -> (r: Node)
    ensures
        r.model() == json_of(value),
        r matches Node::Object(members) ==> distinct_keys(members@),
{
    match value {
        serde_json::Value::Null => Node::Null,
        serde_json::Value::Bool(b) => Node::Bool(b),
        serde_json::Value::Number(number) => Node::Number(number),
        serde_json::Value::String(text) => Node::Text(text),
        serde_json::Value::Array(items) => Node::Array(items),
        serde_json::Value::Object(map) => Node::Object(map.into_iter().collect()),
    }
}

/// Builds a `serde_json::Value` from one layer. An object's `Map` is filled by `extend`,
/// which updates the entry of a key that is already there.
#[verifier::external_body]
pub(crate) fn seal_value(node: Node) -> (r: serde_json::Value)
    ensures
        json_of(r) == node.model(),
{
    match node {
        Node::Null => serde_json::Value::Null,
        Node::Bool(b) => serde_json::Value::Bool(b),
        Node::Number(number) => serde_json::Value::Number(number),
        Node::Text(text) => serde_json::Value::String(text),
        Node::Array(items) => serde_json::Value::Array(items),
        Node::Object(members) => {
            let mut map = serde_json::Map::new();
            map.extend(members);
            serde_json::Value::Object(map)
        },
    }
}

/// `serde_json::to_writer` with a writer that takes everything: the byte strings that it
/// writes, in order. For a `Value` it fails only where its writer does, and this one does
/// not. The compact form escapes control characters inside strings and puts no white space
/// between tokens, so no newline byte is among them. Read back by `from_slice`, the text is
/// the same value again where it holds no float (whose last digit `from_slice` may round) and
/// is not nested past the depth at which `from_slice` gives up. White space behind the text is
/// skipped. What is read of an object's text, if anything, is an object with the same keys and
/// the same strings under them. A text that breaks off before the brace that closes the object
/// is not read at all: `from_slice` meets the end of its input inside the object.
#[verifier::external_body]
pub(crate) fn value_to_fragments(value: &serde_json::Value) -> (r: Vec<Vec<u8>>)
    ensures
        fragments_model(r@) == json_fragments(json_of(*value)),
        newline_free(fragments_model(r@)),
        reads_as(joined(fragments_model(r@)), json_of(*value)),
{
    let mut sink = FragmentSink { fragments: Vec::new() };
    serde_json::to_writer(&mut sink, value).expect("the sink takes every write");
    sink.fragments
}

/// `Value`'s `Display`, through `to_string`: it drives the same compact serializer as
/// `to_writer`, so the text's UTF-8 form is what `to_writer` writes. No newline is in it, and
/// `from_slice` makes the same of it.
#[verifier::external_body]
pub(crate) fn value_to_text(value: &serde_json::Value) -> (r: String)
    ensures
        vstd::utf8::encode_utf8(r@) == joined(json_fragments(json_of(*value))),
        on_one_line(r@),
        reads_as(vstd::utf8::encode_utf8(r@), json_of(*value)),
{
    value.to_string()
}

/// `serde_json::from_slice` for a `Value`. The contract names what it reads; `None` stands for
/// its error.
#[verifier::external_body]
pub(crate) fn value_from_slice(text: &[u8]) -> (r: Option<serde_json::Value>)
    ensures
        match r {
            Some(value) => json_read(text@) == Some(json_of(value)),
            None => json_read(text@) is None,
        },
{
    serde_json::from_slice(text).ok()
}

/// How many arrays and objects inside one another `serde_json::from_slice` takes.
pub const READ_DEPTH: u64 = 127;

/// The text of an integer that `serde_json` keeps as an integer.
pub open spec fn integer_text(text: Seq<char>) -> bool {
    exists|n: int| i64::MIN <= n <= u64::MAX && text == #[trigger] decimal(n)
}

/// A value without floats, with no more than `depth` arrays and objects inside one another.
pub open spec fn readable(value: JsonView, depth: nat) -> bool
    decreases value,
{
    match value {
        JsonView::Number(text) => integer_text(text),
        JsonView::Array(items) => depth > 0 && forall|i: int|
            0 <= i < items.len() ==> readable(#[trigger] items[i], (depth - 1) as nat),
        JsonView::Object(members) => depth > 0 && forall|key: Seq<char>| #[trigger]
            members.contains_key(key) ==> readable(members[key], (depth - 1) as nat),
        other => true,
    }
}

/// No more than `depth` arrays and objects of a value are inside one another.
pub open spec fn nests_within(value: JsonView, depth: nat) -> bool
    decreases value,
{
    match value {
        JsonView::Array(items) => depth > 0 && forall|i: int|
            0 <= i < items.len() ==> nests_within(#[trigger] items[i], (depth - 1) as nat),
        JsonView::Object(members) => depth > 0 && forall|key: Seq<char>| #[trigger]
            members.contains_key(key) ==> nests_within(members[key], (depth - 1) as nat),
        other => true,
    }
}

/// A readable value is not nested too deeply.
pub proof fn readable_value_nests_within(value: JsonView, depth: nat)
    requires
        readable(value, depth),
    ensures
        nests_within(value, depth),
    decreases value,
{
    match value {
        JsonView::Array(items) => {
            assert forall|i: int| 0 <= i < items.len() implies nests_within(
                #[trigger] items[i],
                (depth - 1) as nat,
            ) by {
                readable_value_nests_within(items[i], (depth - 1) as nat);
            }
        },
        JsonView::Object(members) => {
            assert forall|key: Seq<char>| #[trigger] members.contains_key(key) implies nests_within(
                members[key],
                (depth - 1) as nat,
            ) by {
                readable_value_nests_within(members[key], (depth - 1) as nat);
            }
        },
        _ => {},
    }
}

/// An object with the same keys, and with the same strings under the same keys.
pub open spec fn same_strings(members: Map<Seq<char>, JsonView>, other: JsonView) -> bool {
    &&& other is Object
    &&& other->Object_0.dom() == members.dom()
    &&& forall|key: Seq<char>| #[trigger]
        members.contains_key(key) && (members[key] is Text || other->Object_0[key] is Text)
            ==> other->Object_0[key] == members[key]
}

/// What is read of the compact text of a value: the value itself, where it is readable. A
/// newline behind the text changes nothing. Of an object, nothing is read that has other keys
/// or other strings, and nothing at all is read of a text that breaks off before its end.
pub open spec fn reads_as(text: Seq<u8>, value: JsonView) -> bool {
    &&& readable(value, READ_DEPTH as nat) ==> json_read(text) == Some(value)
    &&& json_read(text.push(10u8)) == json_read(text)
    &&& value matches JsonView::Object(members) ==> {
        &&& json_read(text) matches Some(read) ==> same_strings(members, read)
        &&& forall|n: int| 0 <= n < text.len() ==> json_read(#[trigger] text.take(n)) is None
    }
}

/// What is written of a value reads as that value.
pub open spec fn reads_back(value: JsonView) -> bool {
    reads_as(joined(json_fragments(value)), value)
}

/// The text has no newline.
pub open spec fn on_one_line(text: Seq<char>) -> bool {
    forall|i: int| 0 <= i < text.len() ==> text[i] != '\n'
}

/// No key occurs twice.
pub open spec fn distinct_keys(members: Seq<(String, serde_json::Value)>) -> bool {
    forall|i: int, j: int|
        #![trigger members[i], members[j]]
        0 <= i < j < members.len() ==> members[i].0@ != members[j].0@
}

proof fn lemma_members_finite(members: Seq<(String, serde_json::Value)>)
    ensures
        Node::members_model(members).dom().finite(),
    decreases members.len(),
{
    if members.len() > 0 {
        lemma_members_finite(members.drop_last());
    }
}

/// With distinct keys, every member counts.
pub(crate) proof fn lemma_member_counts(members: Seq<(String, serde_json::Value)>, i: int)
    requires
        distinct_keys(members),
        0 <= i < members.len(),
    ensures
        Node::members_model(members).dom().finite(),
        Node::members_model(members).contains_key(members[i].0@),
        Node::members_model(members)[members[i].0@] == json_of(members[i].1),
    decreases members.len(),
{
    lemma_members_finite(members.drop_last());
    if i < members.len() - 1 {
        let before = members.drop_last();
        assert forall|a: int, b: int|
            #![trigger before[a], before[b]]
            0 <= a < b < before.len() implies before[a].0@ != before[b].0@ by {
            assert(before[a] == members[a] && before[b] == members[b]);
        }
        lemma_member_counts(before, i);
        assert(before[i] == members[i]);
        assert(members[i].0@ != members[members.len() - 1].0@);
    }
}

/// The byte strings of a list of fragments.
pub open spec fn fragments_model(fragments: Seq<Vec<u8>>) -> Seq<Seq<u8>> {
    Seq::new(fragments.len(), |i: int| fragments[i]@)
}

/// No fragment holds a newline byte.
pub open spec fn newline_free(fragments: Seq<Seq<u8>>) -> bool {
    forall|i: int, j: int|
        #![trigger fragments[i][j]]
        0 <= i < fragments.len() && 0 <= j < fragments[i].len() ==> fragments[i][j] != 10
}

/// Fragments one after the other.
pub open spec fn joined(fragments: Seq<Seq<u8>>) -> Seq<u8>
    decreases fragments.len(),
{
    if fragments.len() == 0 {
        Seq::empty()
    } else {
        joined(fragments.drop_last()) + fragments.last()
    }
}

/// The UTF-8 form of a text without newlines has no newline byte.
pub(crate) proof fn lemma_no_newline_byte(text: Seq<char>)
    requires
        on_one_line(text),
    ensures
        forall|i: int|
            0 <= i < vstd::utf8::encode_utf8(text).len() ==> vstd::utf8::encode_utf8(text)[i] != 10,
    decreases text.len(),
{
    if text.len() > 0 {
        let first = text[0];
        let scalar = first as u32;
        let head = vstd::utf8::encode_scalar(scalar);
        let rest = vstd::utf8::encode_utf8(text.drop_first());
        lemma_no_newline_byte(text.drop_first());
        assert(first != '\n');
        assert(scalar != 10) by {
            vstd::utf8::char_is_scalar(first);
            vstd::utf8::char_u32_cast(first, scalar);
        }
        assert(scalar <= 0x7F && scalar != 10 ==> (scalar & 0x7F) as u8 != 10) by (bit_vector);
        assert(0xC0 | ((scalar >> 6) & 0x1F) as u8 != 10) by (bit_vector);
        assert(0xE0 | ((scalar >> 12) & 0x0F) as u8 != 10) by (bit_vector);
        assert(0xF0 | ((scalar >> 18) & 0x7) as u8 != 10) by (bit_vector);
        assert(0x80 | (scalar & 0x3F) as u8 != 10) by (bit_vector);
        assert(0x80 | ((scalar >> 6) & 0x3F) as u8 != 10) by (bit_vector);
        assert(0x80 | ((scalar >> 12) & 0x3F) as u8 != 10) by (bit_vector);
        let all = vstd::utf8::encode_utf8(text);
        assert forall|i: int| 0 <= i < all.len() implies all[i] != 10 by {
            if i >= head.len() {
                assert(all[i] == rest[i - head.len()]);
            } else {
                assert(all[i] == head[i]);
            }
        }
    }
}

/// A newline is one byte in UTF-8.
pub(crate) proof fn lemma_newline_is_one_byte(text: Seq<char>)
    ensures
        vstd::utf8::encode_utf8(text.push('\n')) == vstd::utf8::encode_utf8(text).push(10u8),
    decreases text.len(),
{
    let ended = text.push('\n');
    if text.len() == 0 {
        assert(10u32 & 0x7F == 10) by (bit_vector);
        assert(ended.drop_first() =~= Seq::empty());
        assert(vstd::utf8::encode_utf8(ended.drop_first()) =~= Seq::empty());
        assert(vstd::utf8::encode_utf8(ended) =~= seq![10u8]);
    } else {
        assert(ended.drop_first() =~= text.drop_first().push('\n'));
        lemma_newline_is_one_byte(text.drop_first());
        assert(vstd::utf8::encode_utf8(ended) =~= vstd::utf8::encode_utf8(text).push(10u8));
    }
}

/// Fragments that make up a text without newline bytes hold none either.
pub(crate) proof fn lemma_newline_free_parts(fragments: Seq<Seq<u8>>)
    requires
        forall|i: int| 0 <= i < joined(fragments).len() ==> joined(fragments)[i] != 10,
    ensures
        newline_free(fragments),
    decreases fragments.len(),
{
    if fragments.len() > 0 {
        let head = fragments.drop_last();
        assert forall|i: int| 0 <= i < joined(head).len() implies joined(head)[i] != 10 by {
            assert(joined(fragments)[i] == joined(head)[i]);
        }
        lemma_newline_free_parts(head);
        assert forall|i: int, j: int|
            #![trigger fragments[i][j]]
            0 <= i < fragments.len() && 0 <= j < fragments[i].len() implies fragments[i][j]
            != 10 by {
            if i < head.len() {
                assert(head[i][j] == fragments[i][j]);
            } else {
                assert(joined(fragments)[joined(head).len() + j] == fragments[i][j]);
            }
        }
    }
}

/// Joining is concatenation: a single fragment joins to itself, and two lists of fragments join
/// to what the first joins to and then what the second does.
pub proof fn joining_is_concatenation(fragment: Seq<u8>, first: Seq<Seq<u8>>, second: Seq<Seq<u8>>)
    ensures
        joined(Seq::empty()) == Seq::<u8>::empty(),
        joined(seq![fragment]) == fragment,
        joined(first + second) == joined(first) + joined(second),
    decreases second.len(),
{
    assert(seq![fragment].drop_last() =~= Seq::empty());
    assert(joined(Seq::<Seq<u8>>::empty()) =~= Seq::<u8>::empty());
    assert(joined(seq![fragment]) =~= joined(Seq::<Seq<u8>>::empty()) + fragment);
    assert(joined(seq![fragment]) =~= fragment);
    if second.len() == 0 {
        assert(first + second =~= first);
        assert(joined(first) + joined(second) =~= joined(first));
    } else {
        joining_is_concatenation(fragment, first, second.drop_last());
        assert((first + second).drop_last() =~= first + second.drop_last());
        assert(joined(first + second) =~= joined(first) + joined(second));
    }
}

/// A list of fragments shows each of them, in order.
pub proof fn fragments_show_their_bytes(fragments: Seq<Vec<u8>>)
    ensures
        fragments_model(fragments).len() == fragments.len(),
        forall|i: int| 0 <= i < fragments.len() ==> fragments_model(fragments)[i] == (
        #[trigger] fragments[i])@,
{
}

/// What a layer shows is what it is made of: a number its text, an array each of its items in
/// order, an object, whose keys are distinct, each of its members under its key.
pub proof fn layer_shows_its_parts(node: Node)
    ensures
        match node {
            Node::Null => node.model() == JsonView::Null,
            Node::Bool(b) => node.model() == JsonView::Bool(b),
            Node::Number(number) => node.model() == JsonView::Number(number_text(number)),
            Node::Text(text) => node.model() == JsonView::Text(text@),
            Node::Array(items) => {
                &&& node.model() matches JsonView::Array(views)
                &&& views.len() == items@.len()
                &&& forall|i: int|
                    0 <= i < items@.len() ==> views[i] == json_of(#[trigger] items@[i])
            },
            Node::Object(members) => distinct_keys(members@) ==> {
                &&& node.model() matches JsonView::Object(views)
                &&& forall|i: int|
                    0 <= i < members@.len() ==> views.contains_key((#[trigger] members@[i]).0@)
                        && views[members@[i].0@] == json_of(members@[i].1)
                &&& forall|key: Seq<char>| #[trigger]
                    views.contains_key(key) ==> exists|i: int|
                        0 <= i < members@.len() && (#[trigger] members@[i]).0@ == key
            },
        },
{
    if let Node::Object(members) = node {
        if distinct_keys(members@) {
            let views = Node::members_model(members@);
            assert forall|i: int| 0 <= i < members@.len() implies views.contains_key(
                (#[trigger] members@[i]).0@,
            ) && views[members@[i].0@] == json_of(members@[i].1) by {
                lemma_member_counts(members@, i);
            }
            assert forall|key: Seq<char>| #[trigger] views.contains_key(key) implies exists|i: int|
                0 <= i < members@.len() && (#[trigger] members@[i]).0@ == key by {
                lemma_key_has_a_layer_member(members@, key);
            }
        }
    }
}

proof fn lemma_key_has_a_layer_member(members: Seq<(String, serde_json::Value)>, key: Seq<char>)
    requires
        Node::members_model(members).contains_key(key),
    ensures
        exists|i: int| 0 <= i < members.len() && (#[trigger] members[i]).0@ == key,
    decreases members.len(),
{
    if members.len() > 0 {
        if members[members.len() - 1].0@ != key {
            let before = members.drop_last();
            lemma_key_has_a_layer_member(before, key);
            let i = choose|i: int| 0 <= i < before.len() && (#[trigger] before[i]).0@ == key;
            assert(members[i].0@ == key);
        }
    }
}

} // verus!
