//! The in-memory value model of the param format: a closed set of value
//! kinds forming a tree, together with its mathematical model and the
//! scalar-narrowing conversions used by `merge`.
use vstd::prelude::*;

verus! {

/// A 40-bit hash identity value, carried in a 64-bit slot; only the low
/// 40 bits are significant on the wire. Equality is exact value equality.
#[derive(Clone, Copy, PartialEq, Eq, Structural, Debug, Hash)]
pub struct Hash40(pub u64);

impl DeepView for Hash40 {
    type V = u64;

    open spec fn deep_view(&self) -> u64 {
        self.0
    }
}

/// The one-byte type tag that precedes every encoded value.
#[derive(Clone, Copy, PartialEq, Eq, Structural, Debug)]
pub enum ParamId {
    Bool,
    I8,
    U8,
    I16,
    U16,
    I32,
    U32,
    F32,
    Hash,
    String,
    List,
    Dict,
}

/// The wire byte of each type tag.
pub open spec fn spec_tag_byte(id: ParamId) -> u8 {
    match id {
        ParamId::Bool => 1,
        ParamId::I8 => 2,
        ParamId::U8 => 3,
        ParamId::I16 => 4,
        ParamId::U16 => 5,
        ParamId::I32 => 6,
        ParamId::U32 => 7,
        ParamId::F32 => 8,
        ParamId::Hash => 9,
        ParamId::String => 10,
        ParamId::List => 11,
        ParamId::Dict => 12,
    }
}

/// The type tag denoted by a wire byte, if any.
pub open spec fn spec_tag_of_byte(b: u8) -> Option<ParamId> {
    if b == 1 {
        Some(ParamId::Bool)
    } else if b == 2 {
        Some(ParamId::I8)
    } else if b == 3 {
        Some(ParamId::U8)
    } else if b == 4 {
        Some(ParamId::I16)
    } else if b == 5 {
        Some(ParamId::U16)
    } else if b == 6 {
        Some(ParamId::I32)
    } else if b == 7 {
        Some(ParamId::U32)
    } else if b == 8 {
        Some(ParamId::F32)
    } else if b == 9 {
        Some(ParamId::Hash)
    } else if b == 10 {
        Some(ParamId::String)
    } else if b == 11 {
        Some(ParamId::List)
    } else if b == 12 {
        Some(ParamId::Dict)
    } else {
        None
    }
}

impl ParamId {
    pub fn to_byte(&self) -> (r: u8)
        ensures
            r == spec_tag_byte(*self),
    {
        match self {
            ParamId::Bool => 1,
            ParamId::I8 => 2,
            ParamId::U8 => 3,
            ParamId::I16 => 4,
            ParamId::U16 => 5,
            ParamId::I32 => 6,
            ParamId::U32 => 7,
            ParamId::F32 => 8,
            ParamId::Hash => 9,
            ParamId::String => 10,
            ParamId::List => 11,
            ParamId::Dict => 12,
        }
    }

    pub fn from_byte(b: u8) -> (r: Option<ParamId>)
        ensures
            r == spec_tag_of_byte(b),
    {
        if b == 1 {
            Some(ParamId::Bool)
        } else if b == 2 {
            Some(ParamId::I8)
        } else if b == 3 {
            Some(ParamId::U8)
        } else if b == 4 {
            Some(ParamId::I16)
        } else if b == 5 {
            Some(ParamId::U16)
        } else if b == 6 {
            Some(ParamId::I32)
        } else if b == 7 {
            Some(ParamId::U32)
        } else if b == 8 {
            Some(ParamId::F32)
        } else if b == 9 {
            Some(ParamId::Hash)
        } else if b == 10 {
            Some(ParamId::String)
        } else if b == 11 {
            Some(ParamId::List)
        } else if b == 12 {
            Some(ParamId::Dict)
        } else {
            None
        }
    }
}

/// One node of a param value tree. `F32` carries the raw bit pattern of the
/// 32-bit float so that the codec is exact; `Dict` is an ordered sequence
/// of key-value pairs whose keys are unique (see [`ValueSpec::wf`]).
#[derive(Debug)]
pub enum Value {
    Bool(bool),
    I8(i8),
    U8(u8),
    I16(i16),
    U16(u16),
    I32(i32),
    U32(u32),
    F32(u32),
    Hash(Hash40),
    String(String),
    List(Vec<Value>),
    Dict(Vec<(Hash40, Value)>),
}

/// The mathematical model of a [`Value`] tree, with all container and string
/// types replaced by their abstract counterparts.
#[verifier::ext_equal]
pub enum ValueSpec {
    Bool(bool),
    I8(i8),
    U8(u8),
    I16(i16),
    U16(u16),
    I32(i32),
    U32(u32),
    F32(u32),
    Hash(u64),
    String(Seq<char>),
    List(Seq<ValueSpec>),
    Dict(Seq<(u64, ValueSpec)>),
}

/// The model of a sequence of list elements.
pub open spec fn view_list(vs: Seq<Value>) -> Seq<ValueSpec>
    decreases vs,
{
    if vs.len() == 0 {
        Seq::empty()
    } else {
        view_list(vs.drop_last()).push(vs.last()@)
    }
}

/// The model of a sequence of map entries.
pub open spec fn view_entries(es: Seq<(Hash40, Value)>) -> Seq<(u64, ValueSpec)>
    decreases es,
{
    if es.len() == 0 {
        Seq::empty()
    } else {
        view_entries(es.drop_last()).push((es.last().0.0, es.last().1@))
    }
}

impl View for Value {
    type V = ValueSpec;

    open spec fn view(&self) -> ValueSpec
        decreases self,
    {
        match self {
            Value::Bool(b) => ValueSpec::Bool(*b),
            Value::I8(x) => ValueSpec::I8(*x),
            Value::U8(x) => ValueSpec::U8(*x),
            Value::I16(x) => ValueSpec::I16(*x),
            Value::U16(x) => ValueSpec::U16(*x),
            Value::I32(x) => ValueSpec::I32(*x),
            Value::U32(x) => ValueSpec::U32(*x),
            Value::F32(x) => ValueSpec::F32(*x),
            Value::Hash(h) => ValueSpec::Hash(h.0),
            Value::String(s) => ValueSpec::String(s@),
            Value::List(vs) => ValueSpec::List(view_list(vs@)),
            Value::Dict(es) => ValueSpec::Dict(view_entries(es@)),
        }
    }
}

/// Pointwise characterization of [`view_list`].
pub broadcast proof fn lemma_view_list(vs: Seq<Value>)
    ensures
        (#[trigger] view_list(vs)).len() == vs.len(),
        forall|i: int| 0 <= i < vs.len() ==> view_list(vs)[i] == vs[i]@,
    decreases vs.len(),
{
    if vs.len() > 0 {
        lemma_view_list(vs.drop_last());
        assert(view_list(vs) == view_list(vs.drop_last()).push(vs.last()@));
        assert(view_list(vs).len() == vs.len());
        assert forall|i: int| 0 <= i < vs.len() implies view_list(vs)[i] == vs[i]@ by {
            if i < vs.len() - 1 {
                assert(vs.drop_last()[i] == vs[i]);
            }
        }
    }
}

/// Pointwise characterization of [`view_entries`].
pub broadcast proof fn lemma_view_entries(es: Seq<(Hash40, Value)>)
    ensures
        (#[trigger] view_entries(es)).len() == es.len(),
        forall|i: int|
            0 <= i < es.len() ==> view_entries(es)[i] == (es[i].0.0, es[i].1@),
    decreases es.len(),
{
    if es.len() > 0 {
        lemma_view_entries(es.drop_last());
        assert(view_entries(es) == view_entries(es.drop_last()).push(
            (es.last().0.0, es.last().1@),
        ));
        assert(view_entries(es).len() == es.len());
        assert forall|i: int|
            0 <= i < es.len() implies view_entries(es)[i] == (es[i].0.0, es[i].1@) by {
            if i < es.len() - 1 {
                assert(es.drop_last()[i] == es[i]);
            }
        }
    }
}

/// A wire-encodable string: ASCII characters, none of them the terminator.
pub open spec fn ascii_no_nul(s: Seq<char>) -> bool {
    vstd::utf8::is_ascii_chars(s) && (forall|i: int| 0 <= i < s.len() ==> s[i] != '\0')
}

/// No two entries share a key.
pub open spec fn unique_keys(es: Seq<(u64, ValueSpec)>) -> bool {
    forall|i: int, j: int| 0 <= i < j < es.len() ==> es[i].0 != es[j].0
}

/// Conjunction of [`ValueSpec::wf`] over a sequence of list elements.
pub open spec fn wf_list(es: Seq<ValueSpec>) -> bool
    decreases es,
{
    if es.len() == 0 {
        true
    } else {
        wf_list(es.drop_last()) && es.last().wf()
    }
}

/// Conjunction of [`ValueSpec::wf`] over the values of a sequence of entries.
pub open spec fn wf_entries(es: Seq<(u64, ValueSpec)>) -> bool
    decreases es,
{
    if es.len() == 0 {
        true
    } else {
        wf_entries(es.drop_last()) && es.last().1.wf()
    }
}

impl ValueSpec {
    /// Well-formedness of a value tree: every string is ASCII without an
    /// embedded terminator, and every map's keys are unique.
    pub open spec fn wf(self) -> bool
        decreases self,
    {
        match self {
            ValueSpec::String(s) => ascii_no_nul(s),
            ValueSpec::List(es) => wf_list(es),
            ValueSpec::Dict(es) => unique_keys(es) && wf_entries(es),
            _ => true,
        }
    }
}

/// Pointwise characterization of [`wf_list`].
pub broadcast proof fn lemma_wf_list(es: Seq<ValueSpec>)
    ensures
        #[trigger] wf_list(es) <==> (forall|i: int| 0 <= i < es.len() ==> #[trigger] es[i].wf()),
    decreases es.len(),
{
    if es.len() > 0 {
        lemma_wf_list(es.drop_last());
        assert(wf_list(es) == (wf_list(es.drop_last()) && es.last().wf()));
        if wf_list(es) {
            assert forall|i: int| 0 <= i < es.len() implies #[trigger] es[i].wf() by {
                if i < es.len() - 1 {
                    assert(es.drop_last()[i] == es[i]);
                    assert(es.drop_last()[i].wf());
                }
            }
        } else {
            if !wf_list(es.drop_last()) {
                let k = choose|i: int|
                    0 <= i < es.drop_last().len() && !(#[trigger] es.drop_last()[i].wf());
                assert(es.drop_last()[k] == es[k]);
                assert(!es[k].wf());
            }
        }
    }
}

/// Pointwise characterization of [`wf_entries`].
pub broadcast proof fn lemma_wf_entries(es: Seq<(u64, ValueSpec)>)
    ensures
        #[trigger] wf_entries(es) <==> (forall|i: int|
            0 <= i < es.len() ==> #[trigger] es[i].1.wf()),
    decreases es.len(),
{
    if es.len() > 0 {
        lemma_wf_entries(es.drop_last());
        assert(wf_entries(es) == (wf_entries(es.drop_last()) && es.last().1.wf()));
        if wf_entries(es) {
            assert forall|i: int| 0 <= i < es.len() implies #[trigger] es[i].1.wf() by {
                if i < es.len() - 1 {
                    assert(es.drop_last()[i] == es[i]);
                    assert(es.drop_last()[i].1.wf());
                }
            }
        } else {
            if !wf_entries(es.drop_last()) {
                let k = choose|i: int|
                    0 <= i < es.drop_last().len() && !(#[trigger] es.drop_last()[i].1.wf());
                assert(es.drop_last()[k] == es[k]);
                assert(!es[k].1.wf());
            }
        }
    }
}

} // verus!


verus! {

/// The boolean a value yields under `merge`, if any.
pub open spec fn spec_as_bool(v: ValueSpec) -> Option<bool> {
    match v {
        ValueSpec::Bool(b) => Some(b),
        _ => None,
    }
}

/// Narrowing view of a numeric value as `i8`, if the conversion is exact.
pub open spec fn spec_as_i8(v: ValueSpec) -> Option<i8> {
    match v {
        ValueSpec::I8(x) => Some(x),
        ValueSpec::U8(x) => if x <= 0x7f { Some(x as i8) } else { None },
        ValueSpec::I16(x) => if -0x80 <= x && x <= 0x7f { Some(x as i8) } else { None },
        ValueSpec::U16(x) => if x <= 0x7f { Some(x as i8) } else { None },
        ValueSpec::I32(x) => if -0x80 <= x && x <= 0x7f { Some(x as i8) } else { None },
        ValueSpec::U32(x) => if x <= 0x7f { Some(x as i8) } else { None },
        _ => None,
    }
}

/// Narrowing view of a numeric value as `u8`, if the conversion is exact.
pub open spec fn spec_as_u8(v: ValueSpec) -> Option<u8> {
    match v {
        ValueSpec::U8(x) => Some(x),
        ValueSpec::I8(x) => if x >= 0 { Some(x as u8) } else { None },
        ValueSpec::I16(x) => if 0 <= x && x <= 0xff { Some(x as u8) } else { None },
        ValueSpec::U16(x) => if x <= 0xff { Some(x as u8) } else { None },
        ValueSpec::I32(x) => if 0 <= x && x <= 0xff { Some(x as u8) } else { None },
        ValueSpec::U32(x) => if x <= 0xff { Some(x as u8) } else { None },
        _ => None,
    }
}

/// Narrowing view of a numeric value as `i16`, if the conversion is exact.
pub open spec fn spec_as_i16(v: ValueSpec) -> Option<i16> {
    match v {
        ValueSpec::I8(x) => Some(x as i16),
        ValueSpec::U8(x) => Some(x as i16),
        ValueSpec::I16(x) => Some(x),
        ValueSpec::U16(x) => if x <= 0x7fff { Some(x as i16) } else { None },
        ValueSpec::I32(x) => if -0x8000 <= x && x <= 0x7fff { Some(x as i16) } else { None },
        ValueSpec::U32(x) => if x <= 0x7fff { Some(x as i16) } else { None },
        _ => None,
    }
}

/// Narrowing view of a numeric value as `u16`, if the conversion is exact
/// (in particular, a negative source never converts).
pub open spec fn spec_as_u16(v: ValueSpec) -> Option<u16> {
    match v {
        ValueSpec::I8(x) => if x >= 0 { Some(x as u16) } else { None },
        ValueSpec::U8(x) => Some(x as u16),
        ValueSpec::U16(x) => Some(x),
        ValueSpec::I16(x) => if x >= 0 { Some(x as u16) } else { None },
        ValueSpec::I32(x) => if 0 <= x && x <= 0xffff { Some(x as u16) } else { None },
        ValueSpec::U32(x) => if x <= 0xffff { Some(x as u16) } else { None },
        _ => None,
    }
}

/// Narrowing view of a numeric value as `i32`, if the conversion is exact.
pub open spec fn spec_as_i32(v: ValueSpec) -> Option<i32> {
    match v {
        ValueSpec::I8(x) => Some(x as i32),
        ValueSpec::U8(x) => Some(x as i32),
        ValueSpec::I16(x) => Some(x as i32),
        ValueSpec::U16(x) => Some(x as i32),
        ValueSpec::I32(x) => Some(x),
        ValueSpec::U32(x) => if x <= 0x7fffffff { Some(x as i32) } else { None },
        _ => None,
    }
}

/// Narrowing view of a numeric value as `u32`, if the conversion is exact
/// (in particular, a negative source never converts).
pub open spec fn spec_as_u32(v: ValueSpec) -> Option<u32> {
    match v {
        ValueSpec::I8(x) => if x >= 0 { Some(x as u32) } else { None },
        ValueSpec::U8(x) => Some(x as u32),
        ValueSpec::I16(x) => if x >= 0 { Some(x as u32) } else { None },
        ValueSpec::U16(x) => Some(x as u32),
        ValueSpec::U32(x) => Some(x),
        ValueSpec::I32(x) => if x >= 0 { Some(x as u32) } else { None },
        _ => None,
    }
}

impl Value {
    pub fn as_bool(&self) -> (r: Option<bool>)
        ensures
            r == spec_as_bool(self@),
    {
        match self {
            Value::Bool(b) => Some(*b),
            _ => None,
        }
    }

    pub fn as_i8(&self) -> (r: Option<i8>)
        ensures
            r == spec_as_i8(self@),
    {
        match self {
            Value::I8(x) => Some(*x),
            Value::U8(x) => if *x <= 0x7f { Some(*x as i8) } else { None },
            Value::I16(x) => if -0x80 <= *x && *x <= 0x7f { Some(*x as i8) } else { None },
            Value::U16(x) => if *x <= 0x7f { Some(*x as i8) } else { None },
            Value::I32(x) => if -0x80 <= *x && *x <= 0x7f { Some(*x as i8) } else { None },
            Value::U32(x) => if *x <= 0x7f { Some(*x as i8) } else { None },
            _ => None,
        }
    }

    pub fn as_u8(&self) -> (r: Option<u8>)
        ensures
            r == spec_as_u8(self@),
    {
        match self {
            Value::U8(x) => Some(*x),
            Value::I8(x) => if *x >= 0 { Some(*x as u8) } else { None },
            Value::I16(x) => if 0 <= *x && *x <= 0xff { Some(*x as u8) } else { None },
            Value::U16(x) => if *x <= 0xff { Some(*x as u8) } else { None },
            Value::I32(x) => if 0 <= *x && *x <= 0xff { Some(*x as u8) } else { None },
            Value::U32(x) => if *x <= 0xff { Some(*x as u8) } else { None },
            _ => None,
        }
    }

    pub fn as_i16(&self) -> (r: Option<i16>)
        ensures
            r == spec_as_i16(self@),
    {
        match self {
            Value::I8(x) => Some(*x as i16),
            Value::U8(x) => Some(*x as i16),
            Value::I16(x) => Some(*x),
            Value::U16(x) => if *x <= 0x7fff { Some(*x as i16) } else { None },
            Value::I32(x) => if -0x8000 <= *x && *x <= 0x7fff { Some(*x as i16) } else { None },
            Value::U32(x) => if *x <= 0x7fff { Some(*x as i16) } else { None },
            _ => None,
        }
    }

    pub fn as_u16(&self) -> (r: Option<u16>)
        ensures
            r == spec_as_u16(self@),
    {
        match self {
            Value::I8(x) => if *x >= 0 { Some(*x as u16) } else { None },
            Value::U8(x) => Some(*x as u16),
            Value::U16(x) => Some(*x),
            Value::I16(x) => if *x >= 0 { Some(*x as u16) } else { None },
            Value::I32(x) => if 0 <= *x && *x <= 0xffff { Some(*x as u16) } else { None },
            Value::U32(x) => if *x <= 0xffff { Some(*x as u16) } else { None },
            _ => None,
        }
    }

    pub fn as_i32(&self) -> (r: Option<i32>)
        ensures
            r == spec_as_i32(self@),
    {
        match self {
            Value::I8(x) => Some(*x as i32),
            Value::U8(x) => Some(*x as i32),
            Value::I16(x) => Some(*x as i32),
            Value::U16(x) => Some(*x as i32),
            Value::I32(x) => Some(*x),
            Value::U32(x) => if *x <= 0x7fffffff { Some(*x as i32) } else { None },
            _ => None,
        }
    }

    pub fn as_u32(&self) -> (r: Option<u32>)
        ensures
            r == spec_as_u32(self@),
    {
        match self {
            Value::I8(x) => if *x >= 0 { Some(*x as u32) } else { None },
            Value::U8(x) => Some(*x as u32),
            Value::I16(x) => if *x >= 0 { Some(*x as u32) } else { None },
            Value::U16(x) => Some(*x as u32),
            Value::U32(x) => Some(*x),
            Value::I32(x) => if *x >= 0 { Some(*x as u32) } else { None },
            _ => None,
        }
    }

    /// The raw bit pattern of a 32-bit float value, if this is one.
    pub fn as_f32_bits(&self) -> (r: Option<u32>)
        ensures
            (self@ matches ValueSpec::F32(x) ==> r == Some(x)),
            !(self@ is F32) ==> r is None,
    {
        match self {
            Value::F32(x) => Some(*x),
            _ => None,
        }
    }

    pub fn as_hash(&self) -> (r: Option<Hash40>)
        ensures
            (self@ matches ValueSpec::Hash(h) ==> r matches Some(g) && g.0 == h),
            !(self@ is Hash) ==> r is None,
    {
        match self {
            Value::Hash(h) => Some(*h),
            _ => None,
        }
    }

    pub fn as_str(&self) -> (r: Option<&str>)
        ensures
            (self@ matches ValueSpec::String(s) ==> r matches Some(t) && t@ == s),
            !(self@ is String) ==> r is None,
    {
        match self {
            Value::String(s) => Some(s.as_str()),
            _ => None,
        }
    }

    pub fn as_list(&self) -> (r: Option<&Vec<Value>>)
        ensures
            (self@ matches ValueSpec::List(es) ==> r matches Some(l) && view_list(l@) == es),
            !(self@ is List) ==> r is None,
    {
        match self {
            Value::List(vs) => Some(vs),
            _ => None,
        }
    }

    pub fn as_map(&self) -> (r: Option<&Vec<(Hash40, Value)>>)
        ensures
            (self@ matches ValueSpec::Dict(es) ==> r matches Some(m) && view_entries(m@) == es),
            !(self@ is Dict) ==> r is None,
    {
        match self {
            Value::Dict(es) => Some(es),
            _ => None,
        }
    }
}

} // verus!

verus! {

/// First value bound to key `k` in an entry sequence, if any.
pub open spec fn dict_get(es: Seq<(u64, ValueSpec)>, k: u64) -> Option<ValueSpec>
    decreases es.len(),
{
    if es.len() == 0 {
        None
    } else if es[0].0 == k {
        Some(es[0].1)
    } else {
        dict_get(es.drop_first(), k)
    }
}

/// Pairwise merge of list elements: element `i` of `xs` is merged with
/// element `i` of `ys` where the latter exists; extra elements on either
/// side are left alone.
pub open spec fn merge_lists(xs: Seq<ValueSpec>, ys: Seq<ValueSpec>) -> Seq<ValueSpec>
    decreases xs,
{
    if xs.len() == 0 {
        xs
    } else {
        merge_lists(xs.drop_last(), ys).push(
            if xs.len() - 1 < ys.len() {
                spec_merge(xs.last(), ys[xs.len() - 1])
            } else {
                xs.last()
            },
        )
    }
}

/// Keywise merge of map entries: an entry of `xs` whose key also occurs in
/// `ys` has its value merged; keys only in `ys` are ignored.
pub open spec fn merge_dicts(
    xs: Seq<(u64, ValueSpec)>,
    ys: Seq<(u64, ValueSpec)>,
) -> Seq<(u64, ValueSpec)>
    decreases xs,
{
    if xs.len() == 0 {
        xs
    } else {
        merge_dicts(xs.drop_last(), ys).push(
            match dict_get(ys, xs.last().0) {
                Some(w) => (xs.last().0, spec_merge(xs.last().1, w)),
                None => xs.last(),
            },
        )
    }
}

/// The patch operation: scalar leaves of `a` are overwritten by compatible
/// leaves of `b` (numeric leaves by any exactly-narrowable numeric source);
/// lists merge pairwise by position and maps by key; everything else is
/// left unchanged.
pub open spec fn spec_merge(a: ValueSpec, b: ValueSpec) -> ValueSpec
    decreases a,
{
    match a {
        ValueSpec::Bool(_) => match spec_as_bool(b) {
            Some(y) => ValueSpec::Bool(y),
            None => a,
        },
        ValueSpec::I8(_) => match spec_as_i8(b) {
            Some(y) => ValueSpec::I8(y),
            None => a,
        },
        ValueSpec::U8(_) => match spec_as_u8(b) {
            Some(y) => ValueSpec::U8(y),
            None => a,
        },
        ValueSpec::I16(_) => match spec_as_i16(b) {
            Some(y) => ValueSpec::I16(y),
            None => a,
        },
        ValueSpec::U16(_) => match spec_as_u16(b) {
            Some(y) => ValueSpec::U16(y),
            None => a,
        },
        ValueSpec::I32(_) => match spec_as_i32(b) {
            Some(y) => ValueSpec::I32(y),
            None => a,
        },
        ValueSpec::U32(_) => match spec_as_u32(b) {
            Some(y) => ValueSpec::U32(y),
            None => a,
        },
        ValueSpec::F32(_) => match b {
            ValueSpec::F32(y) => ValueSpec::F32(y),
            _ => a,
        },
        ValueSpec::Hash(_) => match b {
            ValueSpec::Hash(y) => ValueSpec::Hash(y),
            _ => a,
        },
        ValueSpec::String(_) => match b {
            ValueSpec::String(y) => ValueSpec::String(y),
            _ => a,
        },
        ValueSpec::List(xs) => match b {
            ValueSpec::List(ys) => ValueSpec::List(merge_lists(xs, ys)),
            _ => a,
        },
        ValueSpec::Dict(xs) => match b {
            ValueSpec::Dict(ys) => ValueSpec::Dict(merge_dicts(xs, ys)),
            _ => a,
        },
    }
}

/// Pointwise characterization of [`merge_lists`].
pub broadcast proof fn lemma_merge_lists(xs: Seq<ValueSpec>, ys: Seq<ValueSpec>)
    ensures
        (#[trigger] merge_lists(xs, ys)).len() == xs.len(),
        forall|i: int|
            0 <= i < xs.len() ==> merge_lists(xs, ys)[i] == (if i < ys.len() {
                spec_merge(xs[i], ys[i])
            } else {
                xs[i]
            }),
    decreases xs.len(),
{
    if xs.len() > 0 {
        lemma_merge_lists(xs.drop_last(), ys);
        assert(merge_lists(xs, ys) == merge_lists(xs.drop_last(), ys).push(
            if xs.len() - 1 < ys.len() {
                spec_merge(xs.last(), ys[xs.len() - 1])
            } else {
                xs.last()
            },
        ));
        assert forall|i: int|
            0 <= i < xs.len() implies merge_lists(xs, ys)[i] == (if i < ys.len() {
            spec_merge(xs[i], ys[i])
        } else {
            xs[i]
        }) by {
            if i < xs.len() - 1 {
                assert(xs.drop_last()[i] == xs[i]);
            }
        }
    }
}

/// Pointwise characterization of [`merge_dicts`].
pub broadcast proof fn lemma_merge_dicts(xs: Seq<(u64, ValueSpec)>, ys: Seq<(u64, ValueSpec)>)
    ensures
        (#[trigger] merge_dicts(xs, ys)).len() == xs.len(),
        forall|i: int|
            0 <= i < xs.len() ==> merge_dicts(xs, ys)[i] == (match dict_get(ys, xs[i].0) {
                Some(w) => (xs[i].0, spec_merge(xs[i].1, w)),
                None => xs[i],
            }),
    decreases xs.len(),
{
    if xs.len() > 0 {
        lemma_merge_dicts(xs.drop_last(), ys);
        assert(merge_dicts(xs, ys) == merge_dicts(xs.drop_last(), ys).push(
            match dict_get(ys, xs.last().0) {
                Some(w) => (xs.last().0, spec_merge(xs.last().1, w)),
                None => xs.last(),
            },
        ));
        assert forall|i: int|
            0 <= i < xs.len() implies merge_dicts(xs, ys)[i] == (match dict_get(ys, xs[i].0) {
            Some(w) => (xs[i].0, spec_merge(xs[i].1, w)),
            None => xs[i],
        }) by {
            if i < xs.len() - 1 {
                assert(xs.drop_last()[i] == xs[i]);
            }
        }
    }
}

impl Value {
    /// A structurally equal copy of this value tree.
    pub fn duplicate(&self) -> (r: Value)
        ensures
            r@ == self@,
        decreases self,
    {
        match self {
            Value::Bool(b) => Value::Bool(*b),
            Value::I8(x) => Value::I8(*x),
            Value::U8(x) => Value::U8(*x),
            Value::I16(x) => Value::I16(*x),
            Value::U16(x) => Value::U16(*x),
            Value::I32(x) => Value::I32(*x),
            Value::U32(x) => Value::U32(*x),
            Value::F32(x) => Value::F32(*x),
            Value::Hash(h) => Value::Hash(*h),
            Value::String(s) => Value::String(s.clone()),
            Value::List(vs) => {
                let mut out: Vec<Value> = Vec::new();
                let mut i: usize = 0;
                while i < vs.len()
                    invariant
                        i <= vs.len(),
                        out@.len() == i,
                        forall|j: int| 0 <= j < i ==> out@[j]@ == vs@[j]@,
                    decreases vs.len() - i,
                {
                    out.push(vs[i].duplicate());
                    i = i + 1;
                }
                proof {
                    lemma_view_list(out@);
                    lemma_view_list(vs@);
                    assert(view_list(out@) =~= view_list(vs@));
                }
                Value::List(out)
            },
            Value::Dict(es) => {
                let mut out: Vec<(Hash40, Value)> = Vec::new();
                let mut i: usize = 0;
                while i < es.len()
                    invariant
                        i <= es.len(),
                        out@.len() == i,
                        forall|j: int|
                            0 <= j < i ==> out@[j].0 == es@[j].0 && out@[j].1@ == es@[j].1@,
                    decreases es.len() - i,
                {
                    out.push((es[i].0, es[i].1.duplicate()));
                    i = i + 1;
                }
                proof {
                    lemma_view_entries(out@);
                    lemma_view_entries(es@);
                    assert(view_entries(out@) =~= view_entries(es@));
                }
                Value::Dict(out)
            },
        }
    }
}

} // verus!

verus! {

/// Index of the first entry with key `k`, related to [`dict_get`] on the
/// entries' model.
fn dict_find(es: &Vec<(Hash40, Value)>, k: Hash40) -> (r: Option<usize>)
    ensures
        match r {
            Some(i) => i < es@.len() && es@[i as int].0 == k && dict_get(
                view_entries(es@),
                k.0,
            ) == Some(es@[i as int].1@),
            None => dict_get(view_entries(es@), k.0) is None,
        },
{
    proof {
        lemma_view_entries(es@);
    }
    let ghost s = view_entries(es@);
    proof {
        assert(s.skip(0) =~= s);
    }
    let mut i: usize = 0;
    while i < es.len()
        invariant
            i <= es.len(),
            s == view_entries(es@),
            dict_get(s, k.0) == dict_get(s.skip(i as int), k.0),
            forall|j: int| 0 <= j < i ==> es@[j].0 != k,
        decreases es.len() - i,
    {
        if es[i].0 == k {
            proof {
                assert(s.skip(i as int)[0] == (es@[i as int].0.0, es@[i as int].1@));
            }
            return Some(i);
        }
        proof {
            assert(s.skip(i as int).drop_first() =~= s.skip(i as int + 1));
        }
        i = i + 1;
    }
    proof {
        assert(s.skip(i as int).len() == 0);
    }
    None
}

/// The merge of two borrowed trees as a fresh tree.
fn merged(a: &Value, b: &Value) -> (r: Value)
    ensures
        r@ == spec_merge(a@, b@),
    decreases a,
{
    match a {
        Value::Bool(x) => match b.as_bool() {
            Some(y) => Value::Bool(y),
            None => Value::Bool(*x),
        },
        Value::I8(x) => match b.as_i8() {
            Some(y) => Value::I8(y),
            None => Value::I8(*x),
        },
        Value::U8(x) => match b.as_u8() {
            Some(y) => Value::U8(y),
            None => Value::U8(*x),
        },
        Value::I16(x) => match b.as_i16() {
            Some(y) => Value::I16(y),
            None => Value::I16(*x),
        },
        Value::U16(x) => match b.as_u16() {
            Some(y) => Value::U16(y),
            None => Value::U16(*x),
        },
        Value::I32(x) => match b.as_i32() {
            Some(y) => Value::I32(y),
            None => Value::I32(*x),
        },
        Value::U32(x) => match b.as_u32() {
            Some(y) => Value::U32(y),
            None => Value::U32(*x),
        },
        Value::F32(x) => match b.as_f32_bits() {
            Some(y) => Value::F32(y),
            None => Value::F32(*x),
        },
        Value::Hash(x) => match b.as_hash() {
            Some(y) => Value::Hash(y),
            None => Value::Hash(*x),
        },
        Value::String(x) => match b.as_str() {
            Some(y) => Value::String(y.to_owned()),
            None => Value::String(x.clone()),
        },
        Value::List(xs) => match b {
            Value::List(ys) => {
                let mut out: Vec<Value> = Vec::new();
                let mut i: usize = 0;
                while i < xs.len()
                    invariant
                        i <= xs.len(),
                        out@.len() == i,
                        forall|j: int|
                            0 <= j < i ==> out@[j]@ == (if j < ys@.len() {
                                spec_merge(xs@[j]@, ys@[j]@)
                            } else {
                                xs@[j]@
                            }),
                    decreases xs.len() - i,
                {
                    if i < ys.len() {
                        out.push(merged(&xs[i], &ys[i]));
                    } else {
                        out.push(xs[i].duplicate());
                    }
                    i = i + 1;
                }
                proof {
                    lemma_view_list(out@);
                    lemma_view_list(xs@);
                    lemma_view_list(ys@);
                    lemma_merge_lists(view_list(xs@), view_list(ys@));
                    assert(view_list(out@) =~= merge_lists(view_list(xs@), view_list(ys@)));
                }
                Value::List(out)
            },
            _ => a.duplicate(),
        },
        Value::Dict(xs) => match b {
            Value::Dict(ys) => {
                let mut out: Vec<(Hash40, Value)> = Vec::new();
                let mut i: usize = 0;
                while i < xs.len()
                    invariant
                        i <= xs.len(),
                        out@.len() == i,
                        forall|j: int|
                            0 <= j < i ==> #[trigger] out@[j].0 == xs@[j].0 && out@[j].1@ == (
                            match dict_get(view_entries(ys@), xs@[j].0.0) {
                                Some(w) => spec_merge(xs@[j].1@, w),
                                None => xs@[j].1@,
                            }),
                    decreases xs.len() - i,
                {
                    let k = xs[i].0;
                    match dict_find(ys, k) {
                        Some(j) => {
                            out.push((k, merged(&xs[i].1, &ys[j].1)));
                        },
                        None => {
                            out.push((k, xs[i].1.duplicate()));
                        },
                    }
                    i = i + 1;
                }
                proof {
                    lemma_view_entries(out@);
                    lemma_view_entries(xs@);
                    lemma_view_entries(ys@);
                    lemma_merge_dicts(view_entries(xs@), view_entries(ys@));
                    assert(view_entries(out@) =~= merge_dicts(
                        view_entries(xs@),
                        view_entries(ys@),
                    ));
                }
                Value::Dict(out)
            },
            _ => a.duplicate(),
        },
    }
}

impl Value {
    /// Overwrite scalar leaves of `self` with matching-type leaves of
    /// `other`, recursing into lists by position and into maps by key.
    pub fn merge(&mut self, other: &Value)
        ensures
            final(self)@ == spec_merge(old(self)@, other@),
    {
        let m = merged(self, other);
        *self = m;
    }
}

} // verus!

verus! {

/// Structural equality of list element sequences, by model.
fn eq_lists(xs: &Vec<Value>, ys: &Vec<Value>) -> (r: bool)
    ensures
        r == (view_list(xs@) == view_list(ys@)),
    decreases xs,
{
    proof {
        lemma_view_list(xs@);
        lemma_view_list(ys@);
    }
    if xs.len() != ys.len() {
        return false;
    }
    let mut i: usize = 0;
    while i < xs.len()
        invariant
            i <= xs.len(),
            xs@.len() == ys@.len(),
            forall|j: int| 0 <= j < i ==> xs@[j]@ == ys@[j]@,
        decreases xs.len() - i,
    {
        if !xs[i].eq(&ys[i]) {
            proof {
                assert(view_list(xs@)[i as int] != view_list(ys@)[i as int]);
            }
            return false;
        }
        i = i + 1;
    }
    proof {
        assert(view_list(xs@) =~= view_list(ys@));
    }
    true
}

/// Structural equality of map entry sequences, by model.
fn eq_entries(xs: &Vec<(Hash40, Value)>, ys: &Vec<(Hash40, Value)>) -> (r: bool)
    ensures
        r == (view_entries(xs@) == view_entries(ys@)),
    decreases xs,
{
    proof {
        lemma_view_entries(xs@);
        lemma_view_entries(ys@);
    }
    if xs.len() != ys.len() {
        return false;
    }
    let mut i: usize = 0;
    while i < xs.len()
        invariant
            i <= xs.len(),
            xs@.len() == ys@.len(),
            forall|j: int| 0 <= j < i ==> xs@[j].0 == ys@[j].0 && xs@[j].1@ == ys@[j].1@,
        decreases xs.len() - i,
    {
        if xs[i].0 .0 != ys[i].0 .0 {
            proof {
                assert(view_entries(xs@)[i as int].0 != view_entries(ys@)[i as int].0);
            }
            return false;
        }
        if !xs[i].1.eq(&ys[i].1) {
            proof {
                assert(view_entries(xs@)[i as int].1 != view_entries(ys@)[i as int].1);
            }
            return false;
        }
        i = i + 1;
    }
    proof {
        assert(view_entries(xs@) =~= view_entries(ys@));
    }
    true
}

impl PartialEq for Value {
    /// Structural equality: two trees are equal exactly when their models are.
    fn eq(&self, other: &Value) -> (r: bool)
        ensures
            r == (self@ == other@),
        decreases self,
    {
        match (self, other) {
            (Value::Bool(a), Value::Bool(b)) => *a == *b,
            (Value::I8(a), Value::I8(b)) => *a == *b,
            (Value::U8(a), Value::U8(b)) => *a == *b,
            (Value::I16(a), Value::I16(b)) => *a == *b,
            (Value::U16(a), Value::U16(b)) => *a == *b,
            (Value::I32(a), Value::I32(b)) => *a == *b,
            (Value::U32(a), Value::U32(b)) => *a == *b,
            (Value::F32(a), Value::F32(b)) => *a == *b,
            (Value::Hash(a), Value::Hash(b)) => a.0 == b.0,
            (Value::String(a), Value::String(b)) => a.eq(b),
            (Value::List(a), Value::List(b)) => eq_lists(a, b),
            (Value::Dict(a), Value::Dict(b)) => eq_entries(a, b),
            _ => false,
        }
    }
}

impl vstd::std_specs::cmp::PartialEqSpecImpl for Value {
    open spec fn obeys_eq_spec() -> bool {
        true
    }

    open spec fn eq_spec(&self, other: &Value) -> bool {
        self@ == other@
    }
}

impl Value {
    /// Whether this tree is well-formed: every string ASCII and free of an
    /// embedded terminator, every map's keys unique.
    #[verifier::loop_isolation(false)]
    pub fn check_wf(&self) -> (r: bool)
        ensures
            r == self@.wf(),
        decreases self,
    {
        match self {
            Value::String(s) => {
                if !s.is_ascii() {
                    return false;
                }
                let st = s.as_str();
                let bytes = st.as_bytes();
                proof {
                    vstd::string::is_ascii_spec_bytes(st);
                }
                let mut i: usize = 0;
                while i < bytes.len()
                    invariant
                        i <= bytes@.len(),
                        forall|j: int| 0 <= j < i ==> bytes@[j] != 0,
                    decreases bytes@.len() - i,
                {
                    if bytes[i] == 0 {
                        proof {
                            assert(s@[i as int] as u8 == 0);
                            assert('\0' <= s@[i as int] <= '\u{7f}');
                            assert(s@[i as int] == '\0');
                            assert(self@ == ValueSpec::String(s@));
                            assert(!ValueSpec::String(s@).wf());
                        }
                        return false;
                    }
                    i = i + 1;
                }
                proof {
                    assert forall|j: int| 0 <= j < s@.len() implies s@[j] != '\0' by {
                        assert(bytes@[j] == s@[j] as u8);
                    }
                    assert(ascii_no_nul(s@));
                    assert(self@ == ValueSpec::String(s@));
                }
                true
            },
            Value::List(vs) => {
                proof {
                    lemma_view_list(vs@);
                }
                let mut i: usize = 0;
                while i < vs.len()
                    invariant
                        i <= vs.len(),
                        forall|j: int| 0 <= j < i ==> (#[trigger] vs@[j]@).wf(),
                    decreases vs.len() - i,
                {
                    if !vs[i].check_wf() {
                        proof {
                            assert(!view_list(vs@)[i as int].wf());
                            lemma_list_elem_not_wf(view_list(vs@), i as int);
                            assert(self@ == ValueSpec::List(view_list(vs@)));
                        }
                        return false;
                    }
                    i = i + 1;
                }
                proof {
                    lemma_wf_list(view_list(vs@));
                    assert(self@ == ValueSpec::List(view_list(vs@)));
                }
                true
            },
            Value::Dict(es) => {
                proof {
                    lemma_view_entries(es@);
                }
                let mut i: usize = 0;
                while i < es.len()
                    invariant
                        i <= es.len(),
                        forall|j: int| 0 <= j < i ==> (#[trigger] es@[j].1@).wf(),
                        forall|j1: int, j2: int| 0 <= j1 < j2 <= i - 1 ==> es@[j1].0 != es@[j2].0,
                    decreases es.len() - i,
                {
                    let mut j: usize = 0;
                    while j < i
                        invariant
                            j <= i < es.len(),
                            forall|j1: int| 0 <= j1 < j ==> es@[j1].0 != es@[i as int].0,
                        decreases i - j,
                    {
                        if es[j].0 .0 == es[i].0 .0 {
                            proof {
                                assert(view_entries(es@)[j as int].0 == view_entries(
                                    es@,
                                )[i as int].0);
                                lemma_dict_dup_key(view_entries(es@), j as int, i as int);
                                assert(self@ == ValueSpec::Dict(view_entries(es@)));
                            }
                            return false;
                        }
                        j = j + 1;
                    }
                    if !es[i].1.check_wf() {
                        proof {
                            assert(!view_entries(es@)[i as int].1.wf());
                            lemma_dict_val_not_wf(view_entries(es@), i as int);
                            assert(self@ == ValueSpec::Dict(view_entries(es@)));
                        }
                        return false;
                    }
                    i = i + 1;
                }
                proof {
                    lemma_wf_entries(view_entries(es@));
                    assert(unique_keys(view_entries(es@)));
                    assert(self@ == ValueSpec::Dict(view_entries(es@)));
                }
                true
            },
            _ => true,
        }
    }
}

} // verus!


verus! {

/// A list with an ill-formed element is ill-formed.
proof fn lemma_list_elem_not_wf(es: Seq<ValueSpec>, i: int)
    requires
        0 <= i < es.len(),
        !es[i].wf(),
    ensures
        !ValueSpec::List(es).wf(),
{
    lemma_wf_list(es);
}

/// A map with two equal keys is ill-formed.
proof fn lemma_dict_dup_key(es: Seq<(u64, ValueSpec)>, i: int, j: int)
    requires
        0 <= i < j < es.len(),
        es[i].0 == es[j].0,
    ensures
        !ValueSpec::Dict(es).wf(),
{
    assert(!unique_keys(es));
}

/// A map with an ill-formed value is ill-formed.
proof fn lemma_dict_val_not_wf(es: Seq<(u64, ValueSpec)>, i: int)
    requires
        0 <= i < es.len(),
        !es[i].1.wf(),
    ensures
        !ValueSpec::Dict(es).wf(),
{
    lemma_wf_entries(es);
}
} // verus!

