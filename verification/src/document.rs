//! Documents: an external string id plus a mapping from field names to
//! tagged values.
//!
//! Only textual content takes part in indexing: strings, and the string
//! coercions of integers and booleans.  Null, arrays and nested mappings
//! are stored verbatim but contribute nothing to the index.

use vstd::prelude::*;

verus! {

use crate::trigram::string_from_chars;

/// A field value: text, integer, boolean, null, array or nested mapping.
pub enum FieldValue {
    Text(String),
    Integer(i64),
    Boolean(bool),
    Null,
    Array(Vec<FieldValue>),
    Object(Vec<(String, FieldValue)>),
}

/// The mathematical model of a field value.
pub enum FieldModel {
    Text(Seq<char>),
    Integer(int),
    Boolean(bool),
    Null,
    Array(Seq<FieldModel>),
    Object(Seq<(Seq<char>, FieldModel)>),
}

/// The models of a sequence of values, elementwise.
pub open spec fn model_list(vs: Seq<FieldValue>) -> Seq<FieldModel>
    decreases vs,
    via model_list_decreases
{
    if vs.len() == 0 {
        Seq::empty()
    } else {
        model_list(vs.drop_last()).push(vs[vs.len() - 1].model())
    }
}

#[via_fn]
proof fn model_list_decreases(vs: Seq<FieldValue>) {
    if vs.len() > 0 {
        let i = vs.len() - 1;
        assert(decreases_to!(vs => vs[i]));
    }
}

/// The models of a sequence of named values, elementwise.
pub open spec fn model_fields(fs: Seq<(String, FieldValue)>) -> Seq<(Seq<char>, FieldModel)>
    decreases fs,
    via model_fields_decreases
{
    if fs.len() == 0 {
        Seq::empty()
    } else {
        model_fields(fs.drop_last()).push(
            (fs[fs.len() - 1].0@, fs[fs.len() - 1].1.model()),
        )
    }
}

#[via_fn]
proof fn model_fields_decreases(fs: Seq<(String, FieldValue)>) {
    if fs.len() > 0 {
        let i = fs.len() - 1;
        assert(decreases_to!(fs => fs[i]));
        assert(decreases_to!(fs[i] => fs[i].1));
    }
}

/// `model_list` is the elementwise model.
pub proof fn lemma_model_list(vs: Seq<FieldValue>)
    ensures
        model_list(vs).len() == vs.len(),
        forall|i: int| 0 <= i < vs.len() ==> model_list(vs)[i] == (#[trigger] vs[i]).model(),
    decreases vs.len(),
{
    if vs.len() > 0 {
        lemma_model_list(vs.drop_last());
        assert(forall|i: int| 0 <= i < vs.len() - 1 ==> vs.drop_last()[i] == #[trigger] vs[i]);
    }
}

/// `model_fields` is the elementwise model.
pub proof fn lemma_model_fields(fs: Seq<(String, FieldValue)>)
    ensures
        model_fields(fs).len() == fs.len(),
        forall|i: int| 0 <= i < fs.len() ==> model_fields(fs)[i] == ((#[trigger] fs[i]).0@,
            fs[i].1.model()),
    decreases fs.len(),
{
    if fs.len() > 0 {
        lemma_model_fields(fs.drop_last());
        assert(forall|i: int| 0 <= i < fs.len() - 1 ==> fs.drop_last()[i] == #[trigger] fs[i]);
    }
}

impl FieldValue {
    pub open spec fn model(self) -> FieldModel
        decreases self,
        via Self::model_decreases
    {
        match self {
            FieldValue::Text(s) => FieldModel::Text(s@),
            FieldValue::Integer(n) => FieldModel::Integer(n as int),
            FieldValue::Boolean(b) => FieldModel::Boolean(b),
            FieldValue::Null => FieldModel::Null,
            FieldValue::Array(vs) => FieldModel::Array(model_list(vs@)),
            FieldValue::Object(fs) => FieldModel::Object(model_fields(fs@)),
        }
    }

    #[via_fn]
    proof fn model_decreases(self) {
        match self {
            FieldValue::Array(vs) => {
                assert(decreases_to!(self => self->Array_0));
                assert(decreases_to!(self->Array_0 => self->Array_0@));
            },
            FieldValue::Object(fs) => {
                assert(decreases_to!(self => self->Object_0));
                assert(decreases_to!(self->Object_0 => self->Object_0@));
            },
            _ => {},
        }
    }

    /// A text field value.
    pub fn text(s: &str) -> (r: FieldValue)
        ensures
            r.model() == FieldModel::Text(s@),
    {
        FieldValue::Text(s.to_owned())
    }

    /// An integer field value.
    pub fn integer(n: i64) -> (r: FieldValue)
        ensures
            r.model() == FieldModel::Integer(n as int),
    {
        FieldValue::Integer(n)
    }

    /// A boolean field value.
    pub fn boolean(b: bool) -> (r: FieldValue)
        ensures
            r.model() == FieldModel::Boolean(b),
    {
        FieldValue::Boolean(b)
    }

    /// A structurally equal copy of the value.
    pub fn duplicate(&self) -> (r: FieldValue)
        ensures
            r.model() == self.model(),
        decreases *self,
    {
        match self {
            FieldValue::Text(s) => FieldValue::Text(s.clone()),
            FieldValue::Integer(n) => FieldValue::Integer(*n),
            FieldValue::Boolean(b) => FieldValue::Boolean(*b),
            FieldValue::Null => FieldValue::Null,
            FieldValue::Array(vs) => {
                proof {
                    assert(decreases_to!(*self => self->Array_0));
                    assert(decreases_to!(self->Array_0 => self->Array_0@));
                }
                let out = duplicate_list(vs);
                let r = FieldValue::Array(out);
                proof {
                    lemma_model_list(out@);
                    lemma_model_list(vs@);
                    assert forall|k: int| 0 <= k < model_list(out@).len() implies model_list(
                        out@,
                    )[k] == model_list(vs@)[k] by {
                        assert(out@[k].model() == vs@[k].model());
                    }
                    assert(model_list(out@) =~= model_list(vs@));
                }
                r
            },
            FieldValue::Object(fs) => {
                proof {
                    assert(decreases_to!(*self => self->Object_0));
                    assert(decreases_to!(self->Object_0 => self->Object_0@));
                }
                let out = duplicate_fields(fs);
                let r = FieldValue::Object(out);
                proof {
                    lemma_model_fields(out@);
                    lemma_model_fields(fs@);
                    assert forall|k: int| 0 <= k < model_fields(out@).len() implies model_fields(
                        out@,
                    )[k] == model_fields(fs@)[k] by {
                        assert(out@[k].0@ == fs@[k].0@ && out@[k].1.model() == fs@[k].1.model());
                    }
                    assert(model_fields(out@) =~= model_fields(fs@));
                }
                r
            },
        }
    }
}

/// Elementwise copy of a value sequence.
fn duplicate_list(vs: &Vec<FieldValue>) -> (out: Vec<FieldValue>)
    ensures
        out@.len() == vs@.len(),
        forall|j: int| 0 <= j < vs@.len() ==> (#[trigger] out@[j]).model() == vs@[j].model(),
    decreases vs@,
{
    let mut out: Vec<FieldValue> = Vec::new();
    let mut i: usize = 0;
    while i < vs.len()
        invariant
            i <= vs@.len(),
            out@.len() == i,
            forall|j: int| 0 <= j < i ==> (#[trigger] out@[j]).model() == vs@[j].model(),
        decreases vs@.len() - i,
    {
        proof {
            assert(decreases_to!(vs@ => vs@[i as int]));
        }
        out.push(vs[i].duplicate());
        i = i + 1;
    }
    out
}

/// Elementwise copy of a named-value sequence.
fn duplicate_fields(fs: &Vec<(String, FieldValue)>) -> (out: Vec<(String, FieldValue)>)
    ensures
        out@.len() == fs@.len(),
        forall|j: int|
            0 <= j < fs@.len() ==> (#[trigger] out@[j]).0@ == fs@[j].0@ && out@[j].1.model()
                == fs@[j].1.model(),
    decreases fs@,
{
    let mut out: Vec<(String, FieldValue)> = Vec::new();
    let mut i: usize = 0;
    while i < fs.len()
        invariant
            i <= fs@.len(),
            out@.len() == i,
            forall|j: int|
                0 <= j < i ==> (#[trigger] out@[j]).0@ == fs@[j].0@ && out@[j].1.model()
                    == fs@[j].1.model(),
        decreases fs@.len() - i,
    {
        proof {
            assert(decreases_to!(fs@ => fs@[i as int]));
            assert(decreases_to!(fs@[i as int] => fs@[i as int].1));
        }
        let name = fs[i].0.clone();
        let value = fs[i].1.duplicate();
        out.push((name, value));
        i = i + 1;
    }
    out
}

// ---------------------------------------------------------------------------
// Decimal coercion of integers.
// ---------------------------------------------------------------------------

/// The decimal digits of a non-negative integer, most significant first.
pub open spec fn dec_digits(n: int) -> Seq<char>
    decreases n,
{
    if n < 0 {
        Seq::empty()
    } else if n < 10 {
        seq![((48 + n) as u32) as char]
    } else {
        dec_digits(n / 10).push(((48 + n % 10) as u32) as char)
    }
}

/// The decimal representation of an integer, with a leading minus sign when
/// negative.
pub open spec fn int_to_seq(n: int) -> Seq<char> {
    if n < 0 {
        seq!['-'] + dec_digits(-n)
    } else {
        dec_digits(n)
    }
}

/// A digit character from a digit value.
fn digit_char(d: u64) -> (c: char)
    requires
        d < 10,
    ensures
        c == (((48 + d) as u32) as char),
{
    (48 + d as u32) as u8 as char
}

/// The decimal digits of `n`, most significant first.
fn dec_of_u64(n: u64) -> (r: Vec<char>)
    ensures
        r@ == dec_digits(n as int),
{
    let mut rev: Vec<char> = Vec::new();
    let mut m: u64 = n;
    while m >= 10
        invariant
            dec_digits(n as int) == dec_digits(m as int) + rev@.reverse(),
        decreases m,
    {
        let ghost rev0 = rev@;
        let d = digit_char(m % 10);
        rev.push(d);
        proof {
            assert(rev@.reverse() =~= seq![d] + rev0.reverse());
            assert(dec_digits(m as int) == dec_digits(m as int / 10).push(d));
            assert(dec_digits(m as int / 10).push(d) + rev0.reverse() =~= dec_digits(
                m as int / 10,
            ) + (seq![d] + rev0.reverse()));
        }
        m = m / 10;
    }
    let ghost rev0 = rev@;
    let d = digit_char(m);
    rev.push(d);
    proof {
        assert(rev@.reverse() =~= seq![d] + rev0.reverse());
        assert(dec_digits(m as int) =~= seq![d]);
        assert(dec_digits(n as int) =~= rev@.reverse());
    }
    let mut r: Vec<char> = Vec::new();
    let mut i: usize = rev.len();
    while i > 0
        invariant
            i <= rev@.len(),
            r@ =~= rev@.reverse().take(rev@.len() - i),
        decreases i,
    {
        i = i - 1;
        r.push(rev[i]);
        proof {
            assert(r@ =~= rev@.reverse().take(rev@.len() - i));
        }
    }
    proof {
        assert(rev@.reverse().take(rev@.len() as int) =~= rev@.reverse());
    }
    r
}

/// The decimal string of an integer.
fn int_to_string(n: i64) -> (r: Vec<char>)
    ensures
        r@ == int_to_seq(n as int),
{
    if n >= 0 {
        dec_of_u64(n as u64)
    } else {
        let m: u64 = (-(n as i128)) as u64;
        let digits = dec_of_u64(m);
        let mut r: Vec<char> = Vec::new();
        r.push('-');
        let mut i: usize = 0;
        while i < digits.len()
            invariant
                i <= digits@.len(),
                r@ == seq!['-'] + digits@.take(i as int),
            decreases digits@.len() - i,
        {
            r.push(digits[i]);
            i = i + 1;
            proof {
                assert(r@ =~= seq!['-'] + digits@.take(i as int));
            }
        }
        proof {
            assert(digits@.take(digits@.len() as int) =~= digits@);
        }
        r
    }
}

/// The textual content of a field value: the text itself, or the decimal
/// or boolean coercion of a scalar.  Null, arrays and nested mappings have
/// none.
pub open spec fn text_of(v: FieldModel) -> Option<Seq<char>> {
    match v {
        FieldModel::Text(s) => Some(s),
        FieldModel::Integer(n) => Some(int_to_seq(n)),
        FieldModel::Boolean(b) => Some(
            if b {
                seq!['t', 'r', 'u', 'e']
            } else {
                seq!['f', 'a', 'l', 's', 'e']
            },
        ),
        FieldModel::Null => None,
        FieldModel::Array(_) => None,
        FieldModel::Object(_) => None,
    }
}

/// A document: a string id and an ordered mapping from field names to
/// values.
pub struct Document {
    /// Unique identifier for the document.
    pub id: String,
    /// Fields, in insertion order; names are unique.
    pub fields: Vec<(String, FieldValue)>,
}

impl Document {
    /// The model of the field mapping: name/value pairs in insertion order.
    pub open spec fn fields_model(&self) -> Seq<(Seq<char>, FieldModel)> {
        Seq::new(self.fields@.len(), |i: int| (self.fields@[i].0@, self.fields@[i].1.model()))
    }

    /// Field names are unique.
    pub open spec fn wf(&self) -> bool {
        forall|i: int, j: int|
            0 <= i < j < self.fields_model().len() ==> (#[trigger] self.fields_model()[i]).0 != (
            #[trigger] self.fields_model()[j]).0
    }

    /// Create a new document with the given id and no fields.
    pub fn new(id: &str) -> (d: Document)
        ensures
            d.id@ == id@,
            d.fields_model() == Seq::<(Seq<char>, FieldModel)>::empty(),
            d.wf(),
    {
        let d = Document { id: id.to_owned(), fields: Vec::new() };
        proof {
            assert(d.fields_model() =~= Seq::<(Seq<char>, FieldModel)>::empty());
        }
        d
    }

    /// The position of a field by name, if present.
    fn find_field(&self, name: &str) -> (r: Option<usize>)
        ensures
            match r {
                Some(i) => i < self.fields_model().len() && self.fields_model()[i as int].0
                    == name@,
                None => forall|i: int|
                    0 <= i < self.fields_model().len() ==> (#[trigger] self.fields_model()[
                        i
                    ]).0 != name@,
            },
    {
        let owned = name.to_owned();
        let mut i: usize = 0;
        while i < self.fields.len()
            invariant
                owned@ == name@,
                i <= self.fields@.len(),
                forall|j: int| 0 <= j < i ==> (#[trigger] self.fields_model()[j]).0 != name@,
            decreases self.fields@.len() - i,
        {
            if self.fields[i].0.eq(&owned) {
                proof {
                    assert(self.fields_model()[i as int].0 == self.fields@[i as int].0@);
                }
                return Some(i);
            }
            proof {
                assert(self.fields_model()[i as int].0 == self.fields@[i as int].0@);
            }
            i = i + 1;
        }
        None
    }

    /// Add a field to the document, replacing any previous field of the
    /// same name.
    pub fn add_field(&mut self, name: &str, value: FieldValue)
        requires
            old(self).wf(),
        ensures
            final(self).wf(),
            final(self).id@ == old(self).id@,
            (if exists|i: int|
                0 <= i < old(self).fields_model().len() && (#[trigger] old(
                    self,
                ).fields_model()[i]).0 == name@ {
                final(self).fields_model() == old(self).fields_model().update(
                    choose|i: int|
                        0 <= i < old(self).fields_model().len() && (#[trigger] old(
                            self,
                        ).fields_model()[i]).0 == name@,
                    (name@, value.model()),
                )
            } else {
                final(self).fields_model() == old(self).fields_model().push(
                    (name@, value.model()),
                )
            }),
    {
        let ghost old_model = self.fields_model();
        match self.find_field(name) {
            Some(i) => {
                let owned = name.to_owned();
                self.fields.set(i, (owned, value));
                proof {
                    let k = choose|k: int|
                        0 <= k < old_model.len() && (#[trigger] old_model[k]).0 == name@;
                    assert(old_model[i as int].0 == name@);
                    if k != i as int {
                        assert(old_model[k].0 == old_model[i as int].0);
                        assert(false);
                    }
                    assert(self.fields_model() =~= old_model.update(
                        i as int,
                        (name@, value.model()),
                    ));
                }
            },
            None => {
                let owned = name.to_owned();
                self.fields.push((owned, value));
                proof {
                    assert(self.fields_model() =~= old_model.push((name@, value.model())));
                }
            },
        }
    }

    /// The textual content of the named field, if it exists and is text or
    /// a scalar coercible to text.
    pub fn get_text_field(&self, name: &str) -> (r: Option<String>)
        requires
            self.wf(),
        ensures
            match r {
                Some(s) => exists|i: int|
                    0 <= i < self.fields_model().len() && (#[trigger] self.fields_model()[i]).0
                        == name@ && text_of(self.fields_model()[i].1) == Some(s@),
                None => forall|i: int|
                    0 <= i < self.fields_model().len() ==> ((#[trigger] self.fields_model()[
                        i
                    ]).0 != name@ || text_of(self.fields_model()[i].1) is None),
            },
    {
        match self.find_field(name) {
            Some(i) => {
                let r = self.field_text_at(i);
                proof {
                    if r is Some {
                        assert(self.fields_model()[i as int].0 == name@);
                    } else {
                        assert forall|j: int|
                            0 <= j < self.fields_model().len() && j != i as int implies (
                        #[trigger] self.fields_model()[j]).0 != name@ by {
                            if self.fields_model()[j].0 == name@ {
                                assert(self.fields_model()[i as int].0 == name@);
                                assert(false);
                            }
                        }
                    }
                }
                r
            },
            None => None,
        }
    }

    /// The textual content of the field at position `i`, if any.
    fn field_text_at(&self, i: usize) -> (r: Option<String>)
        requires
            i < self.fields_model().len(),
        ensures
            match r {
                Some(s) => text_of(self.fields_model()[i as int].1) == Some(s@),
                None => text_of(self.fields_model()[i as int].1) is None,
            },
    {
        proof {
            assert(self.fields_model()[i as int].1 == self.fields@[i as int].1.model());
        }
        match &self.fields[i].1 {
            FieldValue::Text(s) => Some(s.clone()),
            FieldValue::Integer(n) => {
                let chars = int_to_string(*n);
                Some(string_from_chars(&chars))
            },
            FieldValue::Boolean(b) => {
                if *b {
                    let mut v: Vec<char> = Vec::new();
                    v.push('t');
                    v.push('r');
                    v.push('u');
                    v.push('e');
                    proof {
                        assert(v@ =~= seq!['t', 'r', 'u', 'e']);
                    }
                    Some(string_from_chars(&v))
                } else {
                    let mut v: Vec<char> = Vec::new();
                    v.push('f');
                    v.push('a');
                    v.push('l');
                    v.push('s');
                    v.push('e');
                    proof {
                        assert(v@ =~= seq!['f', 'a', 'l', 's', 'e']);
                    }
                    Some(string_from_chars(&v))
                }
            },
            FieldValue::Null => None,
            FieldValue::Array(_) => None,
            FieldValue::Object(_) => None,
        }
    }

    /// All textual field contents, in field order.
    pub fn get_all_text_fields(&self) -> (r: Vec<String>)
        ensures
            r.deep_view() == all_texts(self.fields_model()),
    {
        let mut r: Vec<String> = Vec::new();
        let mut i: usize = 0;
        proof {
            assert(self.fields_model().take(0) =~= Seq::<(Seq<char>, FieldModel)>::empty());
            assert(r.deep_view() =~= all_texts(self.fields_model().take(0)));
        }
        while i < self.fields.len()
            invariant
                i <= self.fields_model().len(),
                self.fields_model().len() == self.fields@.len(),
                r.deep_view() == all_texts(self.fields_model().take(i as int)),
            decreases self.fields@.len() - i,
        {
            let ghost pre = self.fields_model().take(i as int);
            proof {
                assert(self.fields_model().take(i + 1).drop_last() =~= pre);
                assert(self.fields_model().take(i + 1).last() == self.fields_model()[i as int]);
            }
            let t = self.field_text_at(i);
            match t {
                Some(s) => {
                    let ghost r0 = r.deep_view();
                    r.push(s);
                    proof {
                        assert(r.deep_view() =~= r0.push(text_of(
                            self.fields_model()[i as int].1,
                        )->Some_0));
                    }
                },
                None => {},
            }
            i = i + 1;
        }
        proof {
            assert(self.fields_model().take(self.fields_model().len() as int)
                =~= self.fields_model());
        }
        r
    }

    /// A structurally equal copy of the document.
    pub fn duplicate(&self) -> (d: Document)
        ensures
            d.id@ == self.id@,
            d.fields_model() == self.fields_model(),
    {
        let id = self.id.clone();
        let mut fields: Vec<(String, FieldValue)> = Vec::new();
        let mut i: usize = 0;
        while i < self.fields.len()
            invariant
                i <= self.fields@.len(),
                fields@.len() == i,
                forall|j: int|
                    0 <= j < i ==> (#[trigger] fields@[j]).0@ == self.fields@[j].0@
                        && fields@[j].1.model() == self.fields@[j].1.model(),
            decreases self.fields@.len() - i,
        {
            let name = self.fields[i].0.clone();
            let value = self.fields[i].1.duplicate();
            fields.push((name, value));
            i = i + 1;
        }
        let d = Document { id, fields };
        proof {
            assert(d.fields_model() =~= self.fields_model());
        }
        d
    }
}

/// The textual contents of a field sequence, in order.
pub open spec fn all_texts(fields: Seq<(Seq<char>, FieldModel)>) -> Seq<Seq<char>>
    decreases fields.len(),
{
    if fields.len() == 0 {
        Seq::empty()
    } else {
        let rest = all_texts(fields.drop_last());
        match text_of(fields.last().1) {
            Some(s) => rest.push(s),
            None => rest,
        }
    }
}

} // verus!
