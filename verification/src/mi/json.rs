//! A small JSON document model and writer.
//!
//! [`JsonData`] is a JSON value as a tree; [`Json`] builds one
//! incrementally, keeping the chain of currently open containers as a
//! stack of frames.  Serialisation is deterministic: object properties and
//! array elements appear in insertion order.

use vstd::prelude::*;
use crate::mi::fs::push_char;
use crate::mi::img::{is_digit, trimmed};
use crate::mi::fs::lower_seq;
use vstd::string::StringExecFns;
use vstd::string::StrSliceExecFns;

verus! {

/// The kind of a JSON value.  `Incomplete` is a placeholder whose kind the
/// next operation decides; it serialises to nothing.
#[derive(Debug, Copy, Clone, PartialEq, Eq, Structural)]
pub enum JsonType {
    Object,
    Array,
    String,
    Number,
    Bool,
    Null,
    Incomplete,
}

/// A JSON value: a kind plus the payload the kind uses.
#[derive(Debug)]
pub struct JsonData {
    pub t: JsonType,
    pub object_properties: Vec<(String, JsonData)>,
    pub array_values: Vec<JsonData>,
    pub str_value: String,
}

/// The mathematical value of a [`JsonData`].
#[verifier::ext_equal]
pub ghost struct JsonDataV {
    pub t: JsonType,
    pub props: Seq<(Seq<char>, JsonDataV)>,
    pub arr: Seq<JsonDataV>,
    pub s: Seq<char>,
}

/// The view of a property list.
pub open spec fn props_view(s: Seq<(String, JsonData)>) -> Seq<(Seq<char>, JsonDataV)>
    decreases s,
{
    if s.len() == 0 {
        Seq::empty()
    } else {
        props_view(s.drop_last()).push((s.last().0@, jd_view(s.last().1)))
    }
}

/// The view of an element list.
pub open spec fn arr_view(s: Seq<JsonData>) -> Seq<JsonDataV>
    decreases s,
{
    if s.len() == 0 {
        Seq::empty()
    } else {
        arr_view(s.drop_last()).push(jd_view(s.last()))
    }
}

/// The view of a JSON value.
pub open spec fn jd_view(d: JsonData) -> JsonDataV
    decreases d,
{
    JsonDataV {
        t: d.t,
        props: props_view(d.object_properties@),
        arr: arr_view(d.array_values@),
        s: d.str_value@,
    }
}

impl View for JsonData {
    type V = JsonDataV;

    open spec fn view(&self) -> JsonDataV {
        jd_view(*self)
    }
}

impl DeepView for JsonData {
    type V = JsonDataV;

    open spec fn deep_view(&self) -> JsonDataV {
        self.view()
    }
}

/// An empty value of the given kind.
pub open spec fn empty_node(t: JsonType) -> JsonDataV {
    JsonDataV { t, props: Seq::empty(), arr: Seq::empty(), s: Seq::empty() }
}

/// A string value.
pub open spec fn str_node(s: Seq<char>) -> JsonDataV {
    JsonDataV { t: JsonType::String, props: Seq::empty(), arr: Seq::empty(), s }
}

/// A number value, written as the given text.
pub open spec fn num_node(s: Seq<char>) -> JsonDataV {
    JsonDataV { t: JsonType::Number, props: Seq::empty(), arr: Seq::empty(), s }
}

/// An object with the given properties.
pub open spec fn obj_node(props: Seq<(Seq<char>, JsonDataV)>) -> JsonDataV {
    JsonDataV { t: JsonType::Object, props, arr: Seq::empty(), s: Seq::empty() }
}

/// An array with the given elements.
pub open spec fn arr_node(arr: Seq<JsonDataV>) -> JsonDataV {
    JsonDataV { t: JsonType::Array, props: Seq::empty(), arr, s: Seq::empty() }
}

/// A string's characters with every double quote escaped.
pub open spec fn escaped(s: Seq<char>) -> Seq<char>
    decreases s.len(),
{
    if s.len() == 0 {
        s
    } else if s.last() == '"' {
        escaped(s.drop_last()) + seq!['\\', '"']
    } else {
        escaped(s.drop_last()).push(s.last())
    }
}

/// The serialised elements of an array, comma-separated.
pub open spec fn arr_body(arr: Seq<JsonDataV>) -> Seq<char>
    decreases arr,
{
    if arr.len() == 0 {
        Seq::empty()
    } else if arr.len() == 1 {
        spec_stringify(arr.last())
    } else {
        arr_body(arr.drop_last()) + seq![','] + spec_stringify(arr.last())
    }
}

/// The serialised properties of an object, comma-separated.
pub open spec fn props_body(props: Seq<(Seq<char>, JsonDataV)>) -> Seq<char>
    decreases props,
{
    if props.len() == 0 {
        Seq::empty()
    } else if props.len() == 1 {
        seq!['"'] + props.last().0 + seq!['"', ':'] + spec_stringify(props.last().1)
    } else {
        props_body(props.drop_last()) + seq![','] + seq!['"'] + props.last().0 + seq!['"', ':']
            + spec_stringify(props.last().1)
    }
}

/// The serialised text of a JSON value.
pub open spec fn spec_stringify(d: JsonDataV) -> Seq<char>
    decreases d,
{
    match d.t {
        JsonType::Object => seq!['{'] + props_body(d.props) + seq!['}'],
        JsonType::Array => seq!['['] + arr_body(d.arr) + seq![']'],
        JsonType::String => seq!['"'] + escaped(d.s) + seq!['"'],
        JsonType::Number => d.s,
        JsonType::Bool => d.s,
        JsonType::Null => seq!['n', 'u', 'l', 'l'],
        JsonType::Incomplete => Seq::empty(),
    }
}

/// `s` without one leading `+` or `-`.
pub open spec fn unsigned_part(s: Seq<char>) -> Seq<char> {
    if s.len() > 0 && (s[0] == '-' || s[0] == '+') {
        s.drop_first()
    } else {
        s
    }
}

/// A non-empty run of ASCII digits.
pub open spec fn is_digit_run(s: Seq<char>) -> bool {
    s.len() > 0 && forall|i: int| 0 <= i < s.len() ==> is_digit(#[trigger] s[i])
}

/// Digits with at most one dot, and digits on at least one of its sides:
/// `12`, `12.`, `12.5` or `.5`.
pub open spec fn is_mantissa(s: Seq<char>) -> bool {
    is_digit_run(s) || (exists|i: int|
        0 <= i < s.len() && #[trigger] s[i] == '.' && (i == 0 || is_digit_run(s.take(i))) && (i
            == s.len() - 1 || is_digit_run(s.skip(i + 1))) && s.len() > 1)
}

/// What a float parser accepts after the sign: a mantissa, optionally
/// with a signed decimal exponent, or `inf`, `infinity` and `nan` in any
/// case.
pub open spec fn is_float_text(s: Seq<char>) -> bool {
    ||| is_mantissa(s)
    ||| (exists|j: int|
        0 < j < s.len() && (#[trigger] s[j] == 'e' || s[j] == 'E') && is_mantissa(s.take(j))
            && is_digit_run(unsigned_part(s.skip(j + 1))))
    ||| lower_seq(s) == "inf"@
    ||| lower_seq(s) == "infinity"@
    ||| lower_seq(s) == "nan"@
}

/// A number as this writer accepts it: once surrounding whitespace is
/// dropped, an optionally signed integer or float text.
pub open spec fn is_json_number(s: Seq<char>) -> bool {
    is_float_text(unsigned_part(trimmed(s)))
}

/// A ready string value.
pub fn string_value(s: String) -> (d: JsonData)
    ensures
        d@ == str_node(s@),
{
    let d = JsonData {
        t: JsonType::String,
        object_properties: Vec::new(),
        array_values: Vec::new(),
        str_value: s,
    };
    proof {
        assert(d@ =~= str_node(d.str_value@));
    }
    d
}

/// A ready number value, written as the given text.
pub fn number_value(s: String) -> (d: JsonData)
    ensures
        d@ == num_node(s@),
{
    let d = JsonData {
        t: JsonType::Number,
        object_properties: Vec::new(),
        array_values: Vec::new(),
        str_value: s,
    };
    proof {
        assert(d@ =~= num_node(d.str_value@));
    }
    d
}

impl JsonData {
    /// An empty value of the given kind.
    pub fn new(t: JsonType) -> (d: JsonData)
        ensures
            d@ == empty_node(t),
    {
        let d = JsonData {
            t,
            object_properties: Vec::new(),
            array_values: Vec::new(),
            str_value: String::new(),
        };
        proof {
            assert(d@ =~= empty_node(t));
        }
        d
    }

    /// Serialises the value: objects and arrays in insertion order, string
    /// quotes escaped, `Incomplete` as nothing.
    pub fn stringify(&self) -> (r: String)
        ensures
            r@ == spec_stringify(self@),
        decreases *self,
    {
        let mut buf = String::new();
        match self.t {
            JsonType::Array => {
                push_char(&mut buf, '[');
                let mut i: usize = 0;
                while i < self.array_values.len()
                    invariant
                        i <= self.array_values@.len(),
                        buf@ == seq!['['] + arr_body(arr_view(self.array_values@.take(i as int))),
                    decreases self.array_values@.len() - i,
                {
                    if i > 0 {
                        push_char(&mut buf, ',');
                    }
                    proof {
                        assert(decreases_to!(self => self.array_values@[i as int]));
                        assert(self.array_values@.take(i + 1).drop_last()
                            =~= self.array_values@.take(i as int));
                        assert(self.array_values@.take(i + 1).last() == self.array_values@[
                            i as int
                        ]);
                    }
                    let part = self.array_values[i].stringify();
                    buf.append(part.as_str());
                    proof {
                        lemma_arr_view_take(self.array_values@, i as int);
                        lemma_arr_view_len(self.array_values@.take(i as int));
                        lemma_arr_view_len(self.array_values@.take(i + 1));
                        let av = arr_view(self.array_values@.take(i as int));
                        let avn = arr_view(self.array_values@.take(i + 1));
                        assert(avn.drop_last() =~= av);
                        assert(avn.last() == jd_view(self.array_values@[i as int]));
                        assert(buf@ =~= seq!['['] + arr_body(avn));
                    }
                    i = i + 1;
                }
                push_char(&mut buf, ']');
                proof {
                    assert(self.array_values@.take(self.array_values@.len() as int)
                        =~= self.array_values@);
                    assert(buf@ =~= spec_stringify(self@));
                }
            },
            JsonType::Object => {
                push_char(&mut buf, '{');
                let mut i: usize = 0;
                while i < self.object_properties.len()
                    invariant
                        i <= self.object_properties@.len(),
                        buf@ == seq!['{'] + props_body(
                            props_view(self.object_properties@.take(i as int)),
                        ),
                    decreases self.object_properties@.len() - i,
                {
                    if i > 0 {
                        push_char(&mut buf, ',');
                    }
                    push_char(&mut buf, '"');
                    buf.append(self.object_properties[i].0.as_str());
                    push_char(&mut buf, '"');
                    push_char(&mut buf, ':');
                    proof {
                        assert(decreases_to!(self => self.object_properties@[i as int].1));
                        assert(self.object_properties@.take(i + 1).drop_last()
                            =~= self.object_properties@.take(i as int));
                        assert(self.object_properties@.take(i + 1).last()
                            == self.object_properties@[i as int]);
                    }
                    let part = self.object_properties[i].1.stringify();
                    buf.append(part.as_str());
                    proof {
                        lemma_props_view_take(self.object_properties@, i as int);
                        lemma_props_view_len(self.object_properties@.take(i as int));
                        lemma_props_view_len(self.object_properties@.take(i + 1));
                        let pv = props_view(self.object_properties@.take(i as int));
                        let pvn = props_view(self.object_properties@.take(i + 1));
                        assert(pvn.drop_last() =~= pv);
                        assert(pvn.last() == (
                            self.object_properties@[i as int].0@,
                            jd_view(self.object_properties@[i as int].1),
                        ));
                        assert(buf@ =~= seq!['{'] + props_body(pvn));
                    }
                    i = i + 1;
                }
                push_char(&mut buf, '}');
                proof {
                    assert(self.object_properties@.take(self.object_properties@.len() as int)
                        =~= self.object_properties@);
                    assert(buf@ =~= spec_stringify(self@));
                }
            },
            JsonType::String => {
                push_char(&mut buf, '"');
                let len = self.str_value.as_str().unicode_len();
                let mut i: usize = 0;
                while i < len
                    invariant
                        i <= len,
                        len == self.str_value@.len(),
                        buf@ == seq!['"'] + escaped(self.str_value@.take(i as int)),
                    decreases len - i,
                {
                    let c = self.str_value.as_str().get_char(i);
                    proof {
                        assert(self.str_value@.take(i + 1).drop_last() =~= self.str_value@.take(
                            i as int,
                        ));
                        assert(self.str_value@.take(i + 1).last() == self.str_value@[i as int]);
                    }
                    if c == '"' {
                        push_char(&mut buf, '\\');
                        push_char(&mut buf, '"');
                    } else {
                        push_char(&mut buf, c);
                    }
                    proof {
                        assert(buf@ =~= seq!['"'] + escaped(self.str_value@.take(i + 1)));
                    }
                    i = i + 1;
                }
                push_char(&mut buf, '"');
                proof {
                    assert(self.str_value@.take(self.str_value@.len() as int)
                        =~= self.str_value@);
                    assert(buf@ =~= spec_stringify(self@));
                }
            },
            JsonType::Number => {
                buf.append(self.str_value.as_str());
                proof {
                    assert(buf@ =~= spec_stringify(self@));
                }
            },
            JsonType::Bool => {
                buf.append(self.str_value.as_str());
                proof {
                    assert(buf@ =~= spec_stringify(self@));
                }
            },
            JsonType::Null => {
                push_char(&mut buf, 'n');
                push_char(&mut buf, 'u');
                push_char(&mut buf, 'l');
                push_char(&mut buf, 'l');
                proof {
                    assert(buf@ =~= spec_stringify(self@));
                }
            },
            JsonType::Incomplete => {
                proof {
                    assert(buf@ =~= spec_stringify(self@));
                }
            },
        }
        buf
    }
}

/// One open container: the node under construction, and the property name
/// it will be attached under once closed, where its parent is an object.
#[derive(Debug)]
pub struct JsonFrame {
    pub name: Option<String>,
    pub node: JsonData,
}

/// The mathematical value of a [`JsonFrame`].
#[verifier::ext_equal]
pub ghost struct JsonFrameV {
    pub name: Option<Seq<char>>,
    pub node: JsonDataV,
}

impl View for JsonFrame {
    type V = JsonFrameV;

    open spec fn view(&self) -> JsonFrameV {
        JsonFrameV {
            name: match self.name {
                Some(n) => Some(n@),
                None => None,
            },
            node: self.node@,
        }
    }
}

impl DeepView for JsonFrame {
    type V = JsonFrameV;

    open spec fn deep_view(&self) -> JsonFrameV {
        self.view()
    }
}

/// An incremental JSON writer: the stack of currently open containers,
/// outermost first.  The document is finished when only the root frame is
/// left.
#[derive(Debug)]
pub struct Json {
    pub frames: Vec<JsonFrame>,
}

impl View for Json {
    type V = Seq<JsonFrameV>;

    open spec fn view(&self) -> Seq<JsonFrameV> {
        self.frames.deep_view()
    }
}

/// Whether the last open container takes a child started now: a
/// placeholder is retyped in place; an array receives a new element.
pub open spec fn can_start(fs: Seq<JsonFrameV>) -> bool {
    fs.len() > 0 && (fs.last().node.t == JsonType::Incomplete || fs.last().node.t
        == JsonType::Array)
}

/// What starting a value of kind `t` does to the frame stack.
pub open spec fn started(fs: Seq<JsonFrameV>, t: JsonType) -> Seq<JsonFrameV> {
    if fs.last().node.t == JsonType::Incomplete {
        fs.update(
            fs.len() - 1,
            JsonFrameV { name: fs.last().name, node: JsonDataV { t, ..fs.last().node } },
        )
    } else {
        fs.push(JsonFrameV { name: None, node: empty_node(t) })
    }
}

/// Whether the top frame can be closed: it has a parent, and the parent is
/// an object when the frame is named and an array when it is not.
pub open spec fn can_end(fs: Seq<JsonFrameV>) -> bool {
    fs.len() >= 2 && (match fs.last().name {
        Some(_) => fs[fs.len() - 2].node.t == JsonType::Object,
        None => fs[fs.len() - 2].node.t == JsonType::Array,
    })
}

/// What closing the top frame does: the finished value is attached to its
/// parent, under its name or as the next array element.
pub open spec fn ended(fs: Seq<JsonFrameV>) -> Seq<JsonFrameV> {
    let child = fs.last();
    let parent = fs[fs.len() - 2];
    let node = match child.name {
        Some(n) => JsonDataV { props: parent.node.props.push((n, child.node)), ..parent.node },
        None => JsonDataV { arr: parent.node.arr.push(child.node), ..parent.node },
    };
    fs.take(fs.len() - 2).push(JsonFrameV { name: parent.name, node })
}

/// Whether the last open value accepts the given text as its content.
pub open spec fn can_set_value(fs: Seq<JsonFrameV>, v: Seq<char>) -> bool {
    fs.len() > 0 && (match fs.last().node.t {
        JsonType::Incomplete => true,
        JsonType::String => true,
        JsonType::Bool => v == "true"@ || v == "false"@,
        JsonType::Number => is_json_number(v),
        _ => false,
    })
}

/// What setting a value does: a placeholder becomes a string; the content
/// is stored as given.
pub open spec fn value_set(fs: Seq<JsonFrameV>, v: Seq<char>) -> Seq<JsonFrameV> {
    let node = fs.last().node;
    let t = if node.t == JsonType::Incomplete {
        JsonType::String
    } else {
        node.t
    };
    fs.update(
        fs.len() - 1,
        JsonFrameV { name: fs.last().name, node: JsonDataV { t, s: v, ..node } },
    )
}

impl Json {
    /// A writer whose root value has the given kind.
    pub fn new(t: JsonType) -> (j: Json)
        ensures
            j@ == seq![JsonFrameV { name: None, node: empty_node(t) }],
    {
        let mut frames: Vec<JsonFrame> = Vec::new();
        frames.push(JsonFrame { name: None, node: JsonData::new(t) });
        let j = Json { frames };
        proof {
            assert(j@ =~= seq![JsonFrameV { name: None, node: empty_node(t) }]);
        }
        j
    }

    /// Opens a value of kind `t`: a placeholder is retyped in place; under
    /// an array, a new element is opened.
    pub fn start(&mut self, t: JsonType)
        requires
            can_start(old(self)@),
        ensures
            final(self)@ == started(old(self)@, t),
    {
        let n = self.frames.len();
        proof {
            assert(self.frames.deep_view().last() == self.frames@[n - 1]@);
        }
        if self.frames[n - 1].node.t == JsonType::Incomplete {
            let mut fr = self.frames.pop().unwrap();
            fr.node.t = t;
            self.frames.push(fr);
            proof {
                assert(fr.node@ =~= (JsonDataV { t, ..old(self)@.last().node }));
                assert(self@ =~= started(old(self)@, t));
            }
        } else {
            self.frames.push(JsonFrame { name: None, node: JsonData::new(t) });
            proof {
                assert(self@ =~= started(old(self)@, t));
            }
        }
    }

    /// Closes the last open value and attaches it to its parent.
    pub fn end(&mut self)
        requires
            can_end(old(self)@),
        ensures
            final(self)@ == ended(old(self)@),
    {
        proof {
            assert(self.frames.deep_view().last() == self.frames@[self.frames@.len() - 1]@);
            assert(self.frames.deep_view()[self.frames@.len() - 2] == self.frames@[
                self.frames@.len() - 2
            ]@);
        }
        let child = self.frames.pop().unwrap();
        let mut parent = self.frames.pop().unwrap();
        match child.name {
            Some(n) => {
                let ghost pprops = parent.node.object_properties@;
                parent.node.object_properties.push((n, child.node));
                proof {
                    assert(pprops.push((n, child.node)).drop_last() =~= pprops);
                    assert(parent.node@.props =~= props_view(pprops).push((n@, child.node@)));
                }
            },
            None => {
                let ghost parr = parent.node.array_values@;
                parent.node.array_values.push(child.node);
                proof {
                    assert(parr.push(child.node).drop_last() =~= parr);
                    assert(parent.node@.arr =~= arr_view(parr).push(child.node@));
                }
            },
        }
        self.frames.push(parent);
        proof {
            assert(self@ =~= ended(old(self)@));
        }
    }

    /// Opens an array value.
    pub fn array(&mut self)
        requires
            can_start(old(self)@),
        ensures
            final(self)@ == started(old(self)@, JsonType::Array),
    {
        self.start(JsonType::Array)
    }

    /// Opens an object value.
    pub fn object(&mut self)
        requires
            can_start(old(self)@),
        ensures
            final(self)@ == started(old(self)@, JsonType::Object),
    {
        self.start(JsonType::Object)
    }

    /// Opens a null value.
    pub fn null(&mut self)
        requires
            can_start(old(self)@),
        ensures
            final(self)@ == started(old(self)@, JsonType::Null),
    {
        self.start(JsonType::Null)
    }

    /// Sets the content of the last open value.
    pub fn value(&mut self, value: &str)
        requires
            can_set_value(old(self)@, value@),
        ensures
            final(self)@ == value_set(old(self)@, value@),
    {
        proof {
            assert(self.frames.deep_view().last() == self.frames@[self.frames@.len() - 1]@);
        }
        let mut fr = self.frames.pop().unwrap();
        if fr.node.t == JsonType::Incomplete {
            fr.node.t = JsonType::String;
        }
        fr.node.str_value = String::from_str(value);
        self.frames.push(fr);
        proof {
            assert(self@ =~= value_set(old(self)@, value@));
        }
    }

    /// Writes a whole string value under the last open container.
    pub fn string(&mut self, value: &str)
        requires
            can_start(old(self)@),
            old(self)@.last().node.t == JsonType::Incomplete ==> can_end(old(self)@),
        ensures
            final(self)@ == ended(value_set(started(old(self)@, JsonType::String), value@)),
    {
        self.start(JsonType::String);
        self.value(value);
        self.end();
    }

    /// Opens a property of the last open object.
    pub fn start_property(&mut self, name: &str, t: JsonType)
        requires
            old(self)@.len() > 0,
            old(self)@.last().node.t == JsonType::Object,
        ensures
            final(self)@ == old(self)@.push(
                JsonFrameV { name: Some(name@), node: empty_node(t) },
            ),
    {
        self.frames.push(JsonFrame { name: Some(String::from_str(name)), node: JsonData::new(t) });
        proof {
            assert(self@ =~= old(self)@.push(
                JsonFrameV { name: Some(name@), node: empty_node(t) },
            ));
        }
    }

    /// Serialises the finished document.
    pub fn stringify(&self) -> (r: String)
        requires
            self@.len() == 1,
        ensures
            r@ == spec_stringify(self@[0].node),
    {
        proof {
            assert(self.frames.deep_view()[0] == self.frames@[0]@);
        }
        self.frames[0].node.stringify()
    }
}

/// A property list's view, element by element.
pub proof fn lemma_props_view_full(s: Seq<(String, JsonData)>)
    ensures
        props_view(s).len() == s.len(),
        forall|i: int|
            0 <= i < s.len() ==> #[trigger] props_view(s)[i] == (s[i].0@, jd_view(s[i].1)),
    decreases s,
{
    if s.len() > 0 {
        lemma_props_view_full(s.drop_last());
    }
}

/// A property list and its view have the same length.
pub proof fn lemma_props_view_len(s: Seq<(String, JsonData)>)
    ensures
        props_view(s).len() == s.len(),
    decreases s,
{
    if s.len() > 0 {
        lemma_props_view_len(s.drop_last());
    }
}

/// An element list and its view have the same length.
pub proof fn lemma_arr_view_len(s: Seq<JsonData>)
    ensures
        arr_view(s).len() == s.len(),
    decreases s,
{
    if s.len() > 0 {
        lemma_arr_view_len(s.drop_last());
    }
}

/// Extending a property list by one extends its view by that pair.
pub proof fn lemma_props_view_take(s: Seq<(String, JsonData)>, i: int)
    requires
        0 <= i < s.len(),
    ensures
        props_view(s.take(i + 1)) == props_view(s.take(i)).push((s[i].0@, jd_view(s[i].1))),
{
    assert(s.take(i + 1).drop_last() =~= s.take(i));
    assert(s.take(i + 1).last() == s[i]);
}

/// Extending an element list by one extends its view by that value.
pub proof fn lemma_arr_view_take(s: Seq<JsonData>, i: int)
    requires
        0 <= i < s.len(),
    ensures
        arr_view(s.take(i + 1)) == arr_view(s.take(i)).push(jd_view(s[i])),
{
    assert(s.take(i + 1).drop_last() =~= s.take(i));
    assert(s.take(i + 1).last() == s[i]);
}

} // verus!
