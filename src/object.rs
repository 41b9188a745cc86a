//! Objects, arrays, dictionaries and streams, and the dispatcher that parses
//! any object.
use vstd::prelude::*;
use vstd::slice::slice_subrange;
use crate::grammar::{
    Value, ErrorKind, ParseError, object_rule, array_rule, items_rule, dict_rule, pairs_rule,
    entry_value_rule, stream_rule, pairs_map,
    length_key, dict_open_tag, dict_close_tag, stream_tag, endstream_tag, LBRACKET, RBRACKET,
};
use crate::scan::{skip_whitespace, is_ws_byte, starts_with_at, bytes_eq, finish};
use crate::boolean::Boolean;
use crate::null::Null;
use crate::name::Name;
use crate::number::{Integer, Real};
use crate::string::String;

verus! {

/// Any object of the grammar. Two objects are equal when they mean the same
/// value.
#[derive(Debug)]
pub enum Object<'b> {
    Boolean(Boolean),
    Name(Name<'b>),
    Integer(Integer),
    Real(Real<'b>),
    String(String),
    Array(Array<'b>),
    Null(Null),
    Dictionary(Dictionary<'b>),
    Stream(Stream<'b>),
}

/// An ordered sequence of objects.
#[derive(Debug)]
pub struct Array<'b>(Vec<Object<'b>>);

/// A mapping from names to objects. Each key is stored once, with the object
/// of the last pair that gave it a value other than the null object. Two
/// dictionaries are equal when they map the same keys to equal objects, in
/// whatever order the pairs were parsed.
#[derive(Debug)]
pub struct Dictionary<'b>(Vec<(Name<'b>, Object<'b>)>);

/// A stream: its dictionary and its payload, borrowed from the input.
#[derive(Debug)]
pub struct Stream<'b> {
    pub info: Dictionary<'b>,
    pub data: &'b [u8],
}

impl<'b> Object<'b> {
    /// The meaning of the object.
    pub open spec fn value(&self) -> Value
        decreases self,
    {
        match self {
            Object::Boolean(b) => Value::Boolean(b@),
            Object::Name(n) => Value::Name(n@),
            Object::Integer(n) => Value::Integer(n@),
            Object::Real(x) => Value::Real(x@.0, x@.1),
            Object::String(t) => Value::Str(t@),
            Object::Array(a) => Value::Array(a.items()),
            Object::Null(_) => Value::Null,
            Object::Dictionary(d) => Value::Dictionary(d.entries()),
            Object::Stream(st) => Value::Stream(st.info.entries(), st.data@),
        }
    }
}

/// The meanings of a sequence of objects.
pub open spec fn values_of<'b>(s: Seq<Object<'b>>) -> Seq<Value>
    decreases s,
{
    if s.len() == 0 {
        seq![]
    } else {
        values_of(s.subrange(0, s.len() - 1)).push(s[s.len() - 1].value())
    }
}

/// The mapping that a sequence of pairs denotes; a later pair overrides an
/// earlier one.
pub open spec fn map_of<'b>(s: Seq<(Name<'b>, Object<'b>)>) -> Map<Seq<u8>, Value>
    decreases s,
{
    if s.len() == 0 {
        Map::empty()
    } else {
        map_of(s.subrange(0, s.len() - 1)).insert(s[s.len() - 1].0@, s[s.len() - 1].1.value())
    }
}

impl<'b> Array<'b> {
    /// The meanings of the elements, in order.
    pub closed spec fn items(&self) -> Seq<Value>
        decreases self,
    {
        values_of(self.0@)
    }
}

impl<'b> View for Array<'b> {
    type V = Seq<Value>;

    open spec fn view(&self) -> Seq<Value> {
        self.items()
    }
}

impl<'b> Dictionary<'b> {
    /// The mapping from key bytes to the meanings of the objects.
    pub closed spec fn entries(&self) -> Map<Seq<u8>, Value>
        decreases self,
    {
        map_of(self.0@)
    }

    /// The stored pairs have distinct keys, and none has the null object as
    /// its value.
    #[verifier::type_invariant]
    pub closed spec fn wf(self) -> bool {
        &&& forall|m: int| 0 <= m < self.0@.len() ==> !((#[trigger] self.0@[m]).1 is Null)
        &&& forall|m: int, q: int|
            0 <= m < q < self.0@.len() ==> (#[trigger] self.0@[m]).0@ != (#[trigger] self.0@[q]).0@
    }
}

impl<'b> View for Dictionary<'b> {
    type V = Map<Seq<u8>, Value>;

    open spec fn view(&self) -> Map<Seq<u8>, Value> {
        self.entries()
    }
}

impl<'b> View for Stream<'b> {
    type V = (Map<Seq<u8>, Value>, Seq<u8>);

    open spec fn view(&self) -> (Map<Seq<u8>, Value>, Seq<u8>) {
        (self.info@, self.data@)
    }
}

proof fn lemma_values_of_push<'b>(s: Seq<Object<'b>>, o: Object<'b>)
    ensures
        values_of(s.push(o)) == values_of(s).push(o.value()),
{
    assert(s.push(o).subrange(0, s.len() as int) =~= s);
}

proof fn lemma_values_of_index<'b>(s: Seq<Object<'b>>)
    ensures
        values_of(s).len() == s.len(),
        forall|m: int| 0 <= m < s.len() ==> values_of(s)[m] == (#[trigger] s[m]).value(),
    decreases s.len(),
{
    if s.len() > 0 {
        let t = s.subrange(0, s.len() - 1);
        lemma_values_of_index(t);
        assert forall|m: int| 0 <= m < s.len() implies values_of(s)[m] == (#[trigger] s[m]).value() by {
            if m < t.len() {
                assert(t[m] == s[m]);
            }
        }
    }
}

proof fn lemma_map_of_no_null<'b>(s: Seq<(Name<'b>, Object<'b>)>)
    requires
        forall|m: int| 0 <= m < s.len() ==> !((#[trigger] s[m]).1 is Null),
    ensures
        forall|key: Seq<u8>| #[trigger] map_of(s).contains_key(key) ==> !(map_of(s)[key] is Null),
    decreases s.len(),
{
    if s.len() > 0 {
        let t = s.subrange(0, s.len() - 1);
        assert forall|m: int| 0 <= m < t.len() implies !((#[trigger] t[m]).1 is Null) by {
            assert(t[m] == s[m]);
        }
        lemma_map_of_no_null(t);
        let last = s[s.len() - 1];
        assert(!(last.1.value() is Null));
        assert(map_of(s) == map_of(t).insert(last.0@, last.1.value()));
        assert forall|key: Seq<u8>| #[trigger] map_of(s).contains_key(key) implies !(map_of(s)[key] is Null) by {
            if key != last.0@ {
                assert(map_of(t).contains_key(key));
            }
        }
    }
}

proof fn lemma_map_of_push<'b>(s: Seq<(Name<'b>, Object<'b>)>, p: (Name<'b>, Object<'b>))
    ensures
        map_of(s.push(p)) == map_of(s).insert(p.0@, p.1.value()),
{
    assert(s.push(p).subrange(0, s.len() as int) =~= s);
}

impl<'b> Object<'b> {
    /// Parses any object at the start of `input`, trying in turn a name, an
    /// integer, a stream, a dictionary, a string, a real number, a boolean,
    /// an array and the null object, and taking the first that matches.
    pub fn parse(input: &'b [u8]) -> (r: Result<(&'b [u8], Object<'b>), ParseError>)
        ensures
            match object_rule(input@, 0) {
                Ok((v, e)) => r matches Ok((rem, o)) && o.value() == v && rem@ == input@.subrange(e, input@.len() as int),
                Err(k) => r == Err::<(&'b [u8], Object<'b>), ParseError>(ParseError { kind: k }),
            },
    {
        finish(input, Self::parse_at(input, 0))
    }

    pub(crate) fn parse_at(s: &'b [u8], i: usize) -> (r: Result<(Object<'b>, usize), ErrorKind>)
        requires
            i <= s@.len(),
        ensures
            match object_rule(s@, i as int) {
                Ok((v, e)) => r matches Ok((o, f)) && o.value() == v && f == e && i < f <= s@.len(),
                Err(k) => r == Err::<(Object<'b>, usize), ErrorKind>(k),
            },
        decreases s@.len() - i, 2int,
    {
        if let Ok((n, e)) = Name::parse_at(s, i) {
            return Ok((Object::Name(n), e));
        }
        if let Ok((n, e)) = Integer::parse_at(s, i) {
            return Ok((Object::Integer(n), e));
        }
        if let Ok((st, e)) = Stream::parse_at(s, i) {
            return Ok((Object::Stream(st), e));
        }
        if let Ok((d, e)) = Dictionary::parse_at(s, i) {
            return Ok((Object::Dictionary(d), e));
        }
        if let Ok((t, e)) = String::parse_at(s, i) {
            return Ok((Object::String(t), e));
        }
        if let Ok((x, e)) = Real::parse_at(s, i) {
            return Ok((Object::Real(x), e));
        }
        if let Ok((b, e)) = Boolean::parse_at(s, i) {
            return Ok((Object::Boolean(b), e));
        }
        if let Ok((a, e)) = Array::parse_at(s, i) {
            return Ok((Object::Array(a), e));
        }
        if let Ok((z, e)) = Null::parse_at(s, i) {
            return Ok((Object::Null(z), e));
        }
        Err(ErrorKind::NoMatch)
    }
}

impl<'b> Array<'b> {
    /// Parses `[`, zero or more objects each after optional whitespace,
    /// optional whitespace and `]` at the start of `input`.
    pub fn parse(input: &'b [u8]) -> (r: Result<(&'b [u8], Array<'b>), ParseError>)
        ensures
            match array_rule(input@, 0) {
                Ok((vs, e)) => r matches Ok((rem, a)) && a@ == vs && rem@ == input@.subrange(e, input@.len() as int),
                Err(k) => r == Err::<(&'b [u8], Array<'b>), ParseError>(ParseError { kind: k }),
            },
    {
        finish(input, Self::parse_at(input, 0))
    }

    pub(crate) fn parse_at(s: &'b [u8], i: usize) -> (r: Result<(Array<'b>, usize), ErrorKind>)
        requires
            i <= s@.len(),
        ensures
            match array_rule(s@, i as int) {
                Ok((vs, e)) => r matches Ok((a, f)) && a@ == vs && f == e && i < f <= s@.len(),
                Err(k) => r == Err::<(Array<'b>, usize), ErrorKind>(k),
            },
        decreases s@.len() - i, 1int,
    {
        let n = s.len();
        if i >= n || s[i] != LBRACKET {
            return Err(ErrorKind::Expected);
        }
        let mut items: Vec<Object<'b>> = Vec::new();
        let mut last = i + 1;
        let mut k = i + 1;
        proof {
            assert(values_of(items@) + items_rule(s@, last as int, k as int).0 =~= items_rule(s@, last as int, k as int).0);
        }
        loop
            invariant
                n == s@.len(),
                i < last <= k <= n,
                items_rule(s@, i + 1, i + 1) == (values_of(items@) + items_rule(s@, last as int, k as int).0,
                    items_rule(s@, last as int, k as int).1),
            ensures
                i < last <= n,
                items_rule(s@, i + 1, i + 1) == (values_of(items@), last as int),
            decreases n - k,
        {
            let ghost k0 = k;
            while k < n && is_ws_byte(s[k])
                invariant
                    n == s@.len(),
                    i < last <= k <= n,
                    k0 <= k,
                    items_rule(s@, i + 1, i + 1) == (values_of(items@) + items_rule(s@, last as int, k as int).0,
                        items_rule(s@, last as int, k as int).1),
                decreases n - k,
            {
                k = k + 1;
            }
            match Object::parse_at(s, k) {
                Ok((o, e)) => {
                    proof {
                        lemma_values_of_push(items@, o);
                        assert(values_of(items@) + (seq![o.value()] + items_rule(s@, e as int, e as int).0)
                            =~= values_of(items@).push(o.value()) + items_rule(s@, e as int, e as int).0);
                    }
                    items.push(o);
                    last = e;
                    k = e;
                },
                Err(_) => {
                    proof {
                        assert(values_of(items@) + seq![] =~= values_of(items@));
                    }
                    break;
                },
            }
        }
        let c = skip_whitespace(s, last);
        if c < n && s[c] == RBRACKET {
            Ok((Array(items), c + 1))
        } else {
            Err(ErrorKind::Expected)
        }
    }

    /// The elements, in order.
    pub fn get(&self) -> (r: &[Object<'b>])
        ensures
            r@.len() == self@.len(),
            forall|m: int| 0 <= m < r@.len() ==> (#[trigger] r@[m]).value() == self@[m],
    {
        proof {
            lemma_values_of_index(self.0@);
        }
        self.0.as_slice()
    }
}

proof fn lemma_map_of_update<'b>(s: Seq<(Name<'b>, Object<'b>)>, idx: int, p: (Name<'b>, Object<'b>))
    requires
        0 <= idx < s.len(),
        s[idx].0@ == p.0@,
        forall|m: int| 0 <= m < s.len() && m != idx ==> (#[trigger] s[m]).0@ != p.0@,
    ensures
        map_of(s.update(idx, p)) == map_of(s).insert(p.0@, p.1.value()),
    decreases s.len(),
{
    let u = s.update(idx, p);
    let t = s.subrange(0, s.len() - 1);
    if idx == s.len() - 1 {
        assert(u.subrange(0, u.len() - 1) =~= t);
        assert(map_of(u) =~= map_of(s).insert(p.0@, p.1.value()));
    } else {
        assert(u.subrange(0, u.len() - 1) =~= t.update(idx, p));
        assert forall|m: int| 0 <= m < t.len() && m != idx implies (#[trigger] t[m]).0@ != p.0@ by {
            assert(t[m] == s[m]);
        }
        lemma_map_of_update(t, idx, p);
        assert(s[s.len() - 1].0@ != p.0@);
        assert(map_of(u) =~= map_of(s).insert(p.0@, p.1.value()));
    }
}

/// The position of the pair with key `key`, if any.
fn find_key<'b>(pairs: &Vec<(Name<'b>, Object<'b>)>, key: &[u8]) -> (r: Option<usize>)
    ensures
        match r {
            Some(idx) => idx < pairs@.len() && pairs@[idx as int].0@ == key@,
            None => forall|m: int| 0 <= m < pairs@.len() ==> (#[trigger] pairs@[m]).0@ != key@,
        },
{
    let mut idx: usize = 0;
    while idx < pairs.len()
        invariant
            idx <= pairs@.len(),
            forall|m: int| 0 <= m < idx ==> (#[trigger] pairs@[m]).0@ != key@,
        decreases pairs@.len() - idx,
    {
        if bytes_eq(pairs[idx].0.get(), key) {
            return Some(idx);
        }
        idx = idx + 1;
    }
    None
}

proof fn lemma_map_of_key<'b>(s: Seq<(Name<'b>, Object<'b>)>, key: Seq<u8>, idx: int)
    requires
        0 <= idx <= s.len(),
        forall|m: int| idx <= m < s.len() ==> (#[trigger] s[m]).0@ != key,
    ensures
        map_of(s).contains_key(key) == map_of(s.subrange(0, idx)).contains_key(key),
        map_of(s).contains_key(key) ==> map_of(s)[key] == map_of(s.subrange(0, idx))[key],
    decreases s.len(),
{
    if s.len() == idx {
        assert(s.subrange(0, idx) =~= s);
    } else {
        let t = s.subrange(0, s.len() - 1);
        assert(t.subrange(0, idx) =~= s.subrange(0, idx));
        assert forall|m: int| idx <= m < t.len() implies (#[trigger] t[m]).0@ != key by {
            assert(t[m] == s[m]);
        }
        lemma_map_of_key(t, key, idx);
    }
}

impl<'b> Dictionary<'b> {
    /// Parses `<<`, zero or more pairs of a name and an object (each after
    /// optional whitespace), optional whitespace and `>>` at the start of
    /// `input`. Pairs whose value is the null object are left out.
    pub fn parse(input: &'b [u8]) -> (r: Result<(&'b [u8], Dictionary<'b>), ParseError>)
        ensures
            match dict_rule(input@, 0) {
                Ok((m, e)) => r matches Ok((rem, d)) && d@ == m && d.wf() && rem@ == input@.subrange(e, input@.len() as int),
                Err(k) => r == Err::<(&'b [u8], Dictionary<'b>), ParseError>(ParseError { kind: k }),
            },
            r matches Ok((_, d)) ==> forall|key: Seq<u8>| #[trigger] d@.contains_key(key) ==> !(d@[key] is Null),
    {
        let r = Self::parse_at(input, 0);
        proof {
            if r is Ok {
                lemma_map_of_no_null(r->Ok_0.0.0@);
            }
        }
        finish(input, r)
    }

    pub(crate) fn parse_at(s: &'b [u8], i: usize) -> (r: Result<(Dictionary<'b>, usize), ErrorKind>)
        requires
            i <= s@.len(),
        ensures
            match dict_rule(s@, i as int) {
                Ok((m, e)) => r matches Ok((d, f)) && d@ == m && d.wf() && f == e && i < f <= s@.len(),
                Err(k) => r == Err::<(Dictionary<'b>, usize), ErrorKind>(k),
            },
        decreases s@.len() - i, 0int,
    {
        let n = s.len();
        let open: [u8; 2] = [0x3C, 0x3C];
        let close: [u8; 2] = [0x3E, 0x3E];
        proof {
            assert(open@ =~= dict_open_tag());
            assert(close@ =~= dict_close_tag());
        }
        if !starts_with_at(s, i, open.as_slice()) {
            return Err(ErrorKind::Expected);
        }
        let mut pairs: Vec<(Name<'b>, Object<'b>)> = Vec::new();
        let ghost mut all: Seq<(Seq<u8>, Value)> = seq![];
        let mut last = i + 2;
        let mut k = i + 2;
        proof {
            assert(all + pairs_rule(s@, last as int, k as int).0 =~= pairs_rule(s@, last as int, k as int).0);
        }
        loop
            invariant
                n == s@.len(),
                i < last <= k <= n,
                pairs_rule(s@, i + 2, i + 2) == (all + pairs_rule(s@, last as int, k as int).0,
                    pairs_rule(s@, last as int, k as int).1),
                map_of(pairs@) == pairs_map(all),
                forall|m: int| 0 <= m < pairs@.len() ==> !((#[trigger] pairs@[m]).1 is Null),
                forall|m: int, q: int|
                    0 <= m < q < pairs@.len() ==> (#[trigger] pairs@[m]).0@ != (#[trigger] pairs@[q]).0@,
            ensures
                i < last <= n,
                pairs_rule(s@, i + 2, i + 2) == (all, last as int),
                map_of(pairs@) == pairs_map(all),
                forall|m: int| 0 <= m < pairs@.len() ==> !((#[trigger] pairs@[m]).1 is Null),
                forall|m: int, q: int|
                    0 <= m < q < pairs@.len() ==> (#[trigger] pairs@[m]).0@ != (#[trigger] pairs@[q]).0@,
            decreases n - k,
        {
            let ghost k0 = k;
            while k < n && is_ws_byte(s[k])
                invariant
                    n == s@.len(),
                    i < last <= k <= n,
                    k0 <= k,
                    pairs_rule(s@, i + 2, i + 2) == (all + pairs_rule(s@, last as int, k as int).0,
                        pairs_rule(s@, last as int, k as int).1),
                decreases n - k,
            {
                k = k + 1;
            }
            let (key, e1) = match Name::parse_at(s, k) {
                Ok(x) => x,
                Err(_) => {
                    proof {
                        assert(all + seq![] =~= all);
                    }
                    break;
                },
            };
            let mut k2 = e1;
            while k2 < n && is_ws_byte(s[k2])
                invariant
                    n == s@.len(),
                    e1 <= k2 <= n,
                    entry_value_rule(s@, e1 as int) == entry_value_rule(s@, k2 as int),
                decreases n - k2,
            {
                k2 = k2 + 1;
            }
            match Object::parse_at(s, k2) {
                Ok((o, e2)) => {
                    let ghost pair = (key@, o.value());
                    proof {
                        assert(all + (seq![pair] + pairs_rule(s@, e2 as int, e2 as int).0)
                            =~= all.push(pair) + pairs_rule(s@, e2 as int, e2 as int).0);
                        assert(all.push(pair).drop_last() =~= all);
                    }
                    if matches!(o, Object::Null(_)) {
                    } else {
                        match find_key(&pairs, key.get()) {
                            Some(idx) => {
                                proof {
                                    lemma_map_of_update(pairs@, idx as int, (key, o));
                                }
                                pairs.set(idx, (key, o));
                            },
                            None => {
                                proof {
                                    lemma_map_of_push(pairs@, (key, o));
                                }
                                pairs.push((key, o));
                            },
                        }
                    }
                    proof {
                        all = all.push(pair);
                    }
                    last = e2;
                    k = e2;
                },
                Err(_) => {
                    proof {
                        assert(all + seq![] =~= all);
                    }
                    break;
                },
            }
        }
        let c = skip_whitespace(s, last);
        if starts_with_at(s, c, close.as_slice()) {
            Ok((Dictionary(pairs), c + 2))
        } else {
            Err(ErrorKind::Expected)
        }
    }

    /// The object that `key` maps to, if any.
    pub(crate) fn lookup(&self, key: &[u8]) -> (r: Option<&Object<'b>>)
        ensures
            match r {
                Some(o) => self@.contains_key(key@) && self@[key@] == o.value(),
                None => !self@.contains_key(key@),
            },
    {
        let mut idx = self.0.len();
        while idx > 0
            invariant
                idx <= self.0@.len(),
                forall|m: int| idx <= m < self.0@.len() ==> (#[trigger] self.0@[m]).0@ != key@,
            decreases idx,
        {
            if bytes_eq(self.0[idx - 1].0.get(), key) {
                proof {
                    lemma_map_of_key(self.0@, key@, idx as int);
                    lemma_map_of_push(self.0@.subrange(0, idx - 1), self.0@[idx - 1]);
                    assert(self.0@.subrange(0, idx - 1).push(self.0@[idx - 1]) =~= self.0@.subrange(0, idx as int));
                }
                return Some(&self.0[idx - 1].1);
            }
            idx = idx - 1;
        }
        proof {
            lemma_map_of_key(self.0@, key@, 0);
            assert(self.0@.subrange(0, 0) =~= Seq::<(Name<'b>, Object<'b>)>::empty());
        }
        None
    }

    /// The object that `key` maps to; `None` where the key is absent, which
    /// includes a key that was given the null object.
    pub fn get(&self, key: &Name<'b>) -> (r: Option<&Object<'b>>)
        ensures
            match r {
                Some(o) => self@.contains_key(key@) && self@[key@] == o.value(),
                None => !self@.contains_key(key@),
            },
    {
        self.lookup(key.get())
    }

    /// Whether no key maps to an object.
    pub fn is_empty(&self) -> (r: bool)
        ensures
            r == (self@ == Map::<Seq<u8>, Value>::empty()),
    {
        let r = self.0.len() == 0;
        proof {
            if !r {
                let s = self.0@;
                lemma_map_of_push(s.subrange(0, s.len() - 1), s[s.len() - 1]);
                assert(s.subrange(0, s.len() - 1).push(s[s.len() - 1]) =~= s);
                assert(self@.contains_key(s[s.len() - 1].0@));
            } else {
                assert(self@ =~= Map::<Seq<u8>, Value>::empty());
            }
        }
        r
    }
}

impl<'b> Stream<'b> {
    /// Parses a stream at the start of `input`: a dictionary, optional
    /// whitespace, `stream`, one or more whitespace bytes, as many payload
    /// bytes as the dictionary's `Length` entry says, optional whitespace and
    /// `endstream`.
    pub fn parse(input: &'b [u8]) -> (r: Result<(&'b [u8], Stream<'b>), ParseError>)
        ensures
            match stream_rule(input@, 0) {
                Ok((x, e)) => r matches Ok((rem, st)) && st@ == x && rem@ == input@.subrange(e, input@.len() as int),
                Err(k) => r == Err::<(&'b [u8], Stream<'b>), ParseError>(ParseError { kind: k }),
            },
    {
        finish(input, Self::parse_at(input, 0))
    }

    pub(crate) fn parse_at(s: &'b [u8], i: usize) -> (r: Result<(Stream<'b>, usize), ErrorKind>)
        requires
            i <= s@.len(),
        ensures
            match stream_rule(s@, i as int) {
                Ok((x, e)) => r matches Ok((st, f)) && st@ == x && f == e && i < f <= s@.len(),
                Err(k) => r == Err::<(Stream<'b>, usize), ErrorKind>(k),
            },
        decreases s@.len() - i, 1int,
    {
        let n = s.len();
        let (info, j) = match Dictionary::parse_at(s, i) {
            Ok(x) => x,
            Err(e) => return Err(e),
        };
        let kw: [u8; 6] = [0x73, 0x74, 0x72, 0x65, 0x61, 0x6D];
        let end_kw: [u8; 9] = [0x65, 0x6E, 0x64, 0x73, 0x74, 0x72, 0x65, 0x61, 0x6D];
        let key: [u8; 6] = [0x4C, 0x65, 0x6E, 0x67, 0x74, 0x68];
        proof {
            assert(kw@ =~= stream_tag());
            assert(end_kw@ =~= endstream_tag());
            assert(key@ =~= length_key());
        }
        let k = skip_whitespace(s, j);
        if !starts_with_at(s, k, kw.as_slice()) {
            return Err(ErrorKind::Expected);
        }
        let w = skip_whitespace(s, k + 6);
        if w == k + 6 {
            return Err(ErrorKind::Empty);
        }
        let length: usize = match info.lookup(key.as_slice()) {
            Some(Object::Integer(v)) => {
                if v.get() >= 0 {
                    v.get() as usize
                } else {
                    return Err(ErrorKind::StreamLength);
                }
            },
            _ => return Err(ErrorKind::StreamLength),
        };
        if length > n - w {
            return Err(ErrorKind::StreamLength);
        }
        let data = slice_subrange(s, w, w + length);
        let e = skip_whitespace(s, w + length);
        if !starts_with_at(s, e, end_kw.as_slice()) {
            return Err(ErrorKind::StreamEnd);
        }
        Ok((Stream { info, data }, e + 9))
    }

    /// The stream's dictionary.
    pub fn get_info(&self) -> (r: &Dictionary<'b>)
        ensures
            r@ == self@.0,
    {
        &self.info
    }

    /// The payload.
    pub fn get_data(&self) -> (r: &'b [u8])
        ensures
            r@ == self@.1,
    {
        self.data
    }
}

/// Every key of the mapping comes from one of the pairs.
proof fn lemma_map_of_dom<'b>(s: Seq<(Name<'b>, Object<'b>)>)
    ensures
        forall|key: Seq<u8>| #[trigger] map_of(s).contains_key(key)
            ==> exists|m: int| 0 <= m < s.len() && (#[trigger] s[m]).0@ == key,
    decreases s.len(),
{
    if s.len() > 0 {
        let t = s.subrange(0, s.len() - 1);
        lemma_map_of_dom(t);
        assert forall|key: Seq<u8>| #[trigger] map_of(s).contains_key(key)
            implies exists|m: int| 0 <= m < s.len() && (#[trigger] s[m]).0@ == key by {
            if key == s[s.len() - 1].0@ {
                assert(s[s.len() - 1].0@ == key);
            } else {
                assert(map_of(t).contains_key(key));
                let m = choose|m: int| 0 <= m < t.len() && (#[trigger] t[m]).0@ == key;
                assert(s[m] == t[m]);
            }
        }
    }
}

/// Each pair's key is a key of the mapping.
proof fn lemma_map_of_has_key<'b>(s: Seq<(Name<'b>, Object<'b>)>, m: int)
    requires
        0 <= m < s.len(),
    ensures
        map_of(s).contains_key(s[m].0@),
    decreases s.len(),
{
    if m < s.len() - 1 {
        let t = s.subrange(0, s.len() - 1);
        lemma_map_of_has_key(t, m);
        assert(t[m] == s[m]);
    }
}

/// With distinct keys, each pair's key maps to the meaning of its object.
proof fn lemma_map_of_at<'b>(s: Seq<(Name<'b>, Object<'b>)>, m: int)
    requires
        0 <= m < s.len(),
        forall|a: int, q: int| 0 <= a < q < s.len() ==> (#[trigger] s[a]).0@ != (#[trigger] s[q]).0@,
    ensures
        map_of(s).contains_key(s[m].0@),
        map_of(s)[s[m].0@] == s[m].1.value(),
{
    let key = s[m].0@;
    assert forall|q: int| m + 1 <= q < s.len() implies (#[trigger] s[q]).0@ != key by {
        assert(s[m].0@ != s[q].0@);
    }
    lemma_map_of_key(s, key, m + 1);
    lemma_map_of_push(s.subrange(0, m), s[m]);
    assert(s.subrange(0, m).push(s[m]) =~= s.subrange(0, m + 1));
}

impl<'b> Object<'b> {
    /// Whether the two objects mean the same value.
    pub fn same_value(&self, other: &Object<'b>) -> (r: bool)
        ensures
            r == (self.value() == other.value()),
        decreases self,
    {
        match (self, other) {
            (Object::Boolean(a), Object::Boolean(b)) => a.0 == b.0,
            (Object::Name(a), Object::Name(b)) => bytes_eq(a.0, b.0),
            (Object::Integer(a), Object::Integer(b)) => a.0 == b.0,
            (Object::Real(a), Object::Real(b)) => {
                a.is_negative() == b.is_negative() && bytes_eq(a.text(), b.text())
            },
            (Object::String(a), Object::String(b)) => bytes_eq(a.get(), b.get()),
            (Object::Array(a), Object::Array(b)) => a.same_items(b),
            (Object::Null(_), Object::Null(_)) => true,
            (Object::Dictionary(a), Object::Dictionary(b)) => a.same_entries(b),
            (Object::Stream(a), Object::Stream(b)) => {
                a.info.same_entries(&b.info) && bytes_eq(a.data, b.data)
            },
            _ => false,
        }
    }
}

impl<'b> Array<'b> {
    /// Whether the two arrays hold objects of equal meaning, in the same
    /// order.
    pub fn same_items(&self, other: &Array<'b>) -> (r: bool)
        ensures
            r == (self@ == other@),
        decreases self,
    {
        proof {
            lemma_values_of_index(self.0@);
            lemma_values_of_index(other.0@);
        }
        if self.0.len() != other.0.len() {
            return false;
        }
        let mut m: usize = 0;
        while m < self.0.len()
            invariant
                self.0@.len() == other.0@.len(),
                m <= self.0@.len(),
                values_of(self.0@).len() == self.0@.len(),
                values_of(other.0@).len() == other.0@.len(),
                forall|q: int| 0 <= q < self.0@.len() ==> values_of(self.0@)[q] == (#[trigger] self.0@[q]).value(),
                forall|q: int| 0 <= q < other.0@.len() ==> values_of(other.0@)[q] == (#[trigger] other.0@[q]).value(),
                forall|q: int| 0 <= q < m ==> values_of(self.0@)[q] == values_of(other.0@)[q],
            decreases self.0@.len() - m,
        {
            if !self.0[m].same_value(&other.0[m]) {
                return false;
            }
            m = m + 1;
        }
        proof {
            assert(values_of(self.0@) =~= values_of(other.0@));
        }
        true
    }
}

impl<'b> Dictionary<'b> {
    /// Whether the two dictionaries map the same keys to objects of equal
    /// meaning.
    pub fn same_entries(&self, other: &Dictionary<'b>) -> (r: bool)
        ensures
            r == (self@ == other@),
        decreases self,
    {
        proof {
            use_type_invariant(self);
        }
        let mut m: usize = 0;
        while m < self.0.len()
            invariant
                m <= self.0@.len(),
                forall|a: int, q: int|
                    0 <= a < q < self.0@.len() ==> (#[trigger] self.0@[a]).0@ != (#[trigger] self.0@[q]).0@,
                forall|q: int| 0 <= q < m ==> other@.contains_key((#[trigger] self.0@[q]).0@)
                    && other@[self.0@[q].0@] == self@[self.0@[q].0@],
            decreases self.0@.len() - m,
        {
            proof {
                lemma_map_of_at(self.0@, m as int);
            }
            match other.lookup(self.0[m].0.get()) {
                None => return false,
                Some(o) => {
                    if !self.0[m].1.same_value(o) {
                        return false;
                    }
                },
            }
            m = m + 1;
        }
        let mut q: usize = 0;
        while q < other.0.len()
            invariant
                q <= other.0@.len(),
                forall|a: int| 0 <= a < q ==> self@.contains_key((#[trigger] other.0@[a]).0@),
            decreases other.0@.len() - q,
        {
            proof {
                lemma_map_of_has_key(other.0@, q as int);
            }
            if self.lookup(other.0[q].0.get()).is_none() {
                return false;
            }
            q = q + 1;
        }
        proof {
            lemma_map_of_dom(self.0@);
            lemma_map_of_dom(other.0@);
            assert forall|key: Seq<u8>| #[trigger] self@.contains_key(key) implies other@.contains_key(key)
                && other@[key] == self@[key] by {
                assert(map_of(self.0@).contains_key(key));
                let a = choose|a: int| 0 <= a < self.0@.len() && (#[trigger] self.0@[a]).0@ == key;
            }
            assert forall|key: Seq<u8>| #[trigger] other@.contains_key(key) implies self@.contains_key(key) by {
                assert(map_of(other.0@).contains_key(key));
                let a = choose|a: int| 0 <= a < other.0@.len() && (#[trigger] other.0@[a]).0@ == key;
            }
            assert(self@ =~= other@);
        }
        true
    }
}

impl<'b> PartialEq for Object<'b> {
    fn eq(&self, other: &Object<'b>) -> (r: bool) {
        self.same_value(other)
    }
}

impl<'b> vstd::std_specs::cmp::PartialEqSpecImpl for Object<'b> {
    open spec fn obeys_eq_spec() -> bool {
        true
    }

    open spec fn eq_spec(&self, other: &Object<'b>) -> bool {
        self.value() == other.value()
    }
}

impl<'b> PartialEq for Array<'b> {
    fn eq(&self, other: &Array<'b>) -> (r: bool) {
        self.same_items(other)
    }
}

impl<'b> vstd::std_specs::cmp::PartialEqSpecImpl for Array<'b> {
    open spec fn obeys_eq_spec() -> bool {
        true
    }

    open spec fn eq_spec(&self, other: &Array<'b>) -> bool {
        self@ == other@
    }
}

impl<'b> PartialEq for Dictionary<'b> {
    fn eq(&self, other: &Dictionary<'b>) -> (r: bool) {
        self.same_entries(other)
    }
}

impl<'b> vstd::std_specs::cmp::PartialEqSpecImpl for Dictionary<'b> {
    open spec fn obeys_eq_spec() -> bool {
        true
    }

    open spec fn eq_spec(&self, other: &Dictionary<'b>) -> bool {
        self@ == other@
    }
}

impl<'b> PartialEq for Stream<'b> {
    fn eq(&self, other: &Stream<'b>) -> (r: bool) {
        self.info.same_entries(&other.info) && bytes_eq(self.data, other.data)
    }
}

impl<'b> vstd::std_specs::cmp::PartialEqSpecImpl for Stream<'b> {
    open spec fn obeys_eq_spec() -> bool {
        true
    }

    open spec fn eq_spec(&self, other: &Stream<'b>) -> bool {
        self@ == other@
    }
}

/// Pairs with the same keys and objects of the same meanings denote the same
/// mapping.
proof fn lemma_map_of_same<'b>(s: Seq<(Name<'b>, Object<'b>)>, t: Seq<(Name<'b>, Object<'b>)>)
    requires
        s.len() == t.len(),
        forall|m: int| 0 <= m < s.len() ==> (#[trigger] s[m]).0@ == t[m].0@ && s[m].1.value() == t[m].1.value(),
    ensures
        map_of(s) == map_of(t),
    decreases s.len(),
{
    if s.len() > 0 {
        let s1 = s.subrange(0, s.len() - 1);
        let t1 = t.subrange(0, t.len() - 1);
        assert forall|m: int| 0 <= m < s1.len() implies (#[trigger] s1[m]).0@ == t1[m].0@ && s1[m].1.value()
            == t1[m].1.value() by {
            assert(s1[m] == s[m] && t1[m] == t[m]);
        }
        lemma_map_of_same(s1, t1);
    }
}

impl<'b> Object<'b> {
    /// A copy of the object, with the same meaning.
    pub fn duplicate(&self) -> (r: Object<'b>)
        ensures
            r.value() == self.value(),
        decreases self,
    {
        match self {
            Object::Boolean(b) => Object::Boolean(*b),
            Object::Name(n) => Object::Name(*n),
            Object::Integer(n) => Object::Integer(*n),
            Object::Real(x) => Object::Real(*x),
            Object::String(t) => Object::String(t.duplicate()),
            Object::Array(a) => Object::Array(a.duplicate()),
            Object::Null(z) => Object::Null(*z),
            Object::Dictionary(d) => Object::Dictionary(d.duplicate()),
            Object::Stream(st) => Object::Stream(Stream { info: st.info.duplicate(), data: st.data }),
        }
    }
}

impl<'b> Array<'b> {
    /// A copy of the array, with the same meaning.
    pub fn duplicate(&self) -> (r: Array<'b>)
        ensures
            r@ == self@,
        decreases self,
    {
        let mut out: Vec<Object<'b>> = Vec::new();
        let mut m: usize = 0;
        while m < self.0.len()
            invariant
                m <= self.0@.len(),
                out@.len() == m,
                forall|q: int| 0 <= q < m ==> (#[trigger] out@[q]).value() == self.0@[q].value(),
            decreases self.0@.len() - m,
        {
            out.push(self.0[m].duplicate());
            m = m + 1;
        }
        proof {
            lemma_values_of_index(out@);
            lemma_values_of_index(self.0@);
            assert forall|q: int| 0 <= q < out@.len() implies values_of(out@)[q] == values_of(self.0@)[q] by {
                assert(out@[q].value() == self.0@[q].value());
            }
            assert(values_of(out@) =~= values_of(self.0@));
        }
        Array(out)
    }
}

impl<'b> Dictionary<'b> {
    /// A copy of the dictionary, with the same meaning.
    pub fn duplicate(&self) -> (r: Dictionary<'b>)
        ensures
            r@ == self@,
        decreases self,
    {
        proof {
            use_type_invariant(self);
        }
        let mut out: Vec<(Name<'b>, Object<'b>)> = Vec::new();
        let mut m: usize = 0;
        while m < self.0.len()
            invariant
                m <= self.0@.len(),
                out@.len() == m,
                forall|q: int| 0 <= q < m ==> (#[trigger] out@[q]).0@ == self.0@[q].0@ && out@[q].1.value()
                    == self.0@[q].1.value(),
                forall|q: int| 0 <= q < self.0@.len() ==> !((#[trigger] self.0@[q]).1 is Null),
                forall|a: int, q: int|
                    0 <= a < q < self.0@.len() ==> (#[trigger] self.0@[a]).0@ != (#[trigger] self.0@[q]).0@,
            decreases self.0@.len() - m,
        {
            let key = self.0[m].0;
            let o = self.0[m].1.duplicate();
            out.push((key, o));
            m = m + 1;
        }
        proof {
            assert forall|q: int| 0 <= q < out@.len() implies !((#[trigger] out@[q]).1 is Null) by {
                assert(!(self.0@[q].1.value() is Null));
            }
            assert forall|a: int, q: int| 0 <= a < q < out@.len() implies (#[trigger] out@[a]).0@
                != (#[trigger] out@[q]).0@ by {
                assert(self.0@[a].0@ != self.0@[q].0@);
            }
            lemma_map_of_same(out@, self.0@);
        }
        Dictionary(out)
    }
}

impl<'b> Clone for Object<'b> {
    fn clone(&self) -> Self {
        self.duplicate()
    }
}

impl<'b> Clone for Array<'b> {
    fn clone(&self) -> Self {
        self.duplicate()
    }
}

impl<'b> Clone for Dictionary<'b> {
    fn clone(&self) -> Self {
        self.duplicate()
    }
}

impl<'b> Clone for Stream<'b> {
    fn clone(&self) -> Self {
        Stream { info: self.info.duplicate(), data: self.data }
    }
}

/// Access to the object inside an [`Object`] of a given kind.
pub trait GetObj<T> {
    /// The inner object, if `self` is of kind `T`.
    spec fn inner(&self) -> Option<T>;

    /// The inner object, if `self` is of kind `T`.
    fn get_obj(&self) -> (r: Option<&T>)
        ensures
            match r {
                Some(x) => self.inner() == Some(*x),
                None => self.inner() is None,
            };
}

impl<'b> GetObj<Boolean> for Object<'b> {
    open spec fn inner(&self) -> Option<Boolean> {
        match self {
            Object::Boolean(x) => Some(*x),
            _ => None,
        }
    }

    fn get_obj(&self) -> (r: Option<&Boolean>) {
        match self {
            Object::Boolean(x) => Some(x),
            _ => None,
        }
    }
}

impl<'b> GetObj<Name<'b>> for Object<'b> {
    open spec fn inner(&self) -> Option<Name<'b>> {
        match self {
            Object::Name(x) => Some(*x),
            _ => None,
        }
    }

    fn get_obj(&self) -> (r: Option<&Name<'b>>) {
        match self {
            Object::Name(x) => Some(x),
            _ => None,
        }
    }
}

impl<'b> GetObj<Integer> for Object<'b> {
    open spec fn inner(&self) -> Option<Integer> {
        match self {
            Object::Integer(x) => Some(*x),
            _ => None,
        }
    }

    fn get_obj(&self) -> (r: Option<&Integer>) {
        match self {
            Object::Integer(x) => Some(x),
            _ => None,
        }
    }
}

impl<'b> GetObj<Real<'b>> for Object<'b> {
    open spec fn inner(&self) -> Option<Real<'b>> {
        match self {
            Object::Real(x) => Some(*x),
            _ => None,
        }
    }

    fn get_obj(&self) -> (r: Option<&Real<'b>>) {
        match self {
            Object::Real(x) => Some(x),
            _ => None,
        }
    }
}

impl<'b> GetObj<String> for Object<'b> {
    open spec fn inner(&self) -> Option<String> {
        match self {
            Object::String(x) => Some(*x),
            _ => None,
        }
    }

    fn get_obj(&self) -> (r: Option<&String>) {
        match self {
            Object::String(x) => Some(x),
            _ => None,
        }
    }
}

impl<'b> GetObj<Array<'b>> for Object<'b> {
    open spec fn inner(&self) -> Option<Array<'b>> {
        match self {
            Object::Array(x) => Some(*x),
            _ => None,
        }
    }

    fn get_obj(&self) -> (r: Option<&Array<'b>>) {
        match self {
            Object::Array(x) => Some(x),
            _ => None,
        }
    }
}

impl<'b> GetObj<Null> for Object<'b> {
    open spec fn inner(&self) -> Option<Null> {
        match self {
            Object::Null(x) => Some(*x),
            _ => None,
        }
    }

    fn get_obj(&self) -> (r: Option<&Null>) {
        match self {
            Object::Null(x) => Some(x),
            _ => None,
        }
    }
}

impl<'b> GetObj<Dictionary<'b>> for Object<'b> {
    open spec fn inner(&self) -> Option<Dictionary<'b>> {
        match self {
            Object::Dictionary(x) => Some(*x),
            _ => None,
        }
    }

    fn get_obj(&self) -> (r: Option<&Dictionary<'b>>) {
        match self {
            Object::Dictionary(x) => Some(x),
            _ => None,
        }
    }
}

impl<'b> GetObj<Stream<'b>> for Object<'b> {
    open spec fn inner(&self) -> Option<Stream<'b>> {
        match self {
            Object::Stream(x) => Some(*x),
            _ => None,
        }
    }

    fn get_obj(&self) -> (r: Option<&Stream<'b>>) {
        match self {
            Object::Stream(x) => Some(x),
            _ => None,
        }
    }
}

} // verus!
