//! Meta data and the cursor that converts it into data.
use crate::text::{arc_clone, str_eq};
use std::sync::Arc;
use vstd::prelude::*;

verus! {

/// A range of items, given by its first item and its number of items.
#[derive(Clone, Copy, PartialEq, Eq, Debug, Structural)]
pub struct Range {
    /// The first item.
    pub offset: usize,
    /// The number of items.
    pub length: usize,
}

impl Range {
    /// Creates a new range.
    pub fn new(offset: usize, length: usize) -> (r: Range)
        ensures
            r.offset == offset,
            r.length == length,
    {
        Range { offset, length }
    }

    /// The offset just after the range.
    pub open spec fn spec_next_offset(self) -> int {
        self.offset + self.length
    }

    /// Returns the offset just after the range.
    pub fn next_offset(&self) -> (r: usize)
        requires
            self.offset + self.length <= usize::MAX,
        ensures
            r == self.spec_next_offset(),
    {
        self.offset + self.length
    }
}

/// One item of meta data read from a text document.
pub enum MetaData {
    /// Starts a node with a name.
    StartNode(Arc<String>),
    /// Ends a node with a name.
    EndNode(Arc<String>),
    /// A named boolean property.
    Bool(Arc<String>, bool),
    /// A named string property.
    String(Arc<String>, Arc<String>),
}

/// One item of meta data as plain values.
pub enum MetaView {
    StartNode(Seq<char>),
    EndNode(Seq<char>),
    Bool(Seq<char>, bool),
    String(Seq<char>, Seq<char>),
}

impl View for MetaData {
    type V = MetaView;

    open spec fn view(&self) -> MetaView {
        match self {
            MetaData::StartNode(n) => MetaView::StartNode(n@),
            MetaData::EndNode(n) => MetaView::EndNode(n@),
            MetaData::Bool(n, b) => MetaView::Bool(n@, *b),
            MetaData::String(n, v) => MetaView::String(n@, v@),
        }
    }
}

/// Meta data as plain values.
pub open spec fn meta_view(data: Seq<MetaData>) -> Seq<MetaView> {
    data.map_values(|d: MetaData| d@)
}

/// The item at `pos` starts a node called `name`.
pub open spec fn start_at(data: Seq<MetaView>, pos: int, name: Seq<char>) -> bool {
    0 <= pos < data.len() && (data[pos] matches MetaView::StartNode(n) && n == name)
}

/// The item at `pos` ends a node called `name`.
pub open spec fn end_at(data: Seq<MetaView>, pos: int, name: Seq<char>) -> bool {
    0 <= pos < data.len() && (data[pos] matches MetaView::EndNode(n) && n == name)
}

/// The item at `pos` ends a node, whatever its name.
pub open spec fn any_end_at(data: Seq<MetaView>, pos: int) -> bool {
    0 <= pos < data.len() && data[pos] is EndNode
}

/// The value of the string property called `name` at `pos`, if that item is one.
pub open spec fn string_at(data: Seq<MetaView>, pos: int, name: Seq<char>) -> Option<Seq<char>> {
    if 0 <= pos < data.len() {
        match data[pos] {
            MetaView::String(n, v) => if n == name {
                Some(v)
            } else {
                None
            },
            _ => None,
        }
    } else {
        None
    }
}

/// The number of items read from `i` on, with `depth` nodes open, until no node
/// is open any more (or the data ends).
pub open spec fn close_len(data: Seq<MetaView>, i: int, depth: nat) -> nat
    decreases data.len() - i,
{
    if i < 0 || i >= data.len() {
        0
    } else {
        let d: nat = match data[i] {
            MetaView::StartNode(_) => depth + 1,
            MetaView::EndNode(_) => (depth - 1) as nat,
            _ => depth,
        };
        if d == 0 {
            1
        } else {
            1 + close_len(data, i + 1, d)
        }
    }
}

/// The number of items skipped by ignoring the item at `pos`: a whole node if it
/// starts one, else one item; nothing at the end of the data.
pub open spec fn ignore_len(data: Seq<MetaView>, pos: int) -> nat {
    close_len(data, pos, 0)
}

/// Ignoring never reads past the end of the data, and reads something where
/// data is left.
pub proof fn lemma_close_len_bounds(data: Seq<MetaView>, i: int, depth: nat)
    requires
        0 <= i,
    ensures
        close_len(data, i, depth) <= data.len() - i || i >= data.len(),
        i < data.len() ==> close_len(data, i, depth) >= 1,
        i >= data.len() ==> close_len(data, i, depth) == 0,
    decreases data.len() - i,
{
    if i < data.len() {
        let d: nat = match data[i] {
            MetaView::StartNode(_) => depth + 1,
            MetaView::EndNode(_) => (depth - 1) as nat,
            _ => depth,
        };
        if d != 0 {
            lemma_close_len_bounds(data, i + 1, d);
        }
    }
}

/// A cursor into meta data, used to convert it item by item.
#[derive(Clone, Copy)]
pub struct Convert<'a> {
    data: &'a [MetaData],
    offset: usize,
}

impl<'a> Convert<'a> {
    /// All the data, read or not.
    pub closed spec fn data(self) -> Seq<MetaView> {
        meta_view(self.data@)
    }

    /// The position of the next item to read.
    pub closed spec fn offset(self) -> int {
        self.offset as int
    }

    #[verifier::type_invariant]
    closed spec fn inv(self) -> bool {
        self.offset <= self.data@.len()
    }

    /// The cursor never stands past the end of its data.
    pub fn lemma_bounds(&self)
        ensures
            0 <= self.offset() <= self.data().len(),
    {
        proof {
            use_type_invariant(self);
        }
    }

    /// Creates a cursor at the start of the data.
    pub fn new(data: &'a [MetaData]) -> (c: Convert<'a>)
        ensures
            c.data() == meta_view(data@),
            c.offset() == 0,
    {
        Convert { data, offset: 0 }
    }

    /// Returns the number of items not read yet.
    pub fn remaining_data_len(&self) -> (n: usize)
        ensures
            n == self.data().len() - self.offset(),
    {
        proof {
            use_type_invariant(self);
        }
        self.data.len() - self.offset
    }

    /// Returns the range of items read since `rhs`.
    pub fn subtract(self, rhs: Convert) -> (r: Range)
        requires
            rhs.offset() <= self.offset(),
        ensures
            r.offset == rhs.offset(),
            r.length == self.offset() - rhs.offset(),
    {
        Range::new(rhs.offset, self.offset - rhs.offset)
    }

    /// Moves the cursor to the end of a range that was read.
    pub fn update(&mut self, range: Range)
        requires
            old(self).offset() <= range.spec_next_offset() <= old(self).data().len(),
        ensures
            final(self).data() == old(self).data(),
            final(self).offset() == range.spec_next_offset(),
    {
        let n = self.data.len();
        assert(range.spec_next_offset() <= n);
        let next_offset = range.next_offset();
        self.offset = next_offset;
    }

    /// Reads the start of a node called `name`.
    pub fn start_node(&self, name: &str) -> (r: Result<Range, ()>)
        ensures
            r is Ok <==> start_at(self.data(), self.offset(), name@),
            r matches Ok(rg) ==> rg.offset == self.offset() && rg.length == 1,
    {
        proof {
            use_type_invariant(self);
        }
        if self.offset >= self.data.len() {
            return Err(());
        }
        match &self.data[self.offset] {
            MetaData::StartNode(n) => {
                if str_eq(n.as_str(), name) {
                    Ok(Range::new(self.offset, 1))
                } else {
                    Err(())
                }
            },
            _ => Err(()),
        }
    }

    /// Reads the end of a node called `name`.
    pub fn end_node(&self, name: &str) -> (r: Result<Range, ()>)
        ensures
            r is Ok <==> end_at(self.data(), self.offset(), name@),
            r matches Ok(rg) ==> rg.offset == self.offset() && rg.length == 1,
    {
        proof {
            use_type_invariant(self);
        }
        if self.offset >= self.data.len() {
            return Err(());
        }
        match &self.data[self.offset] {
            MetaData::EndNode(n) => {
                if str_eq(n.as_str(), name) {
                    Ok(Range::new(self.offset, 1))
                } else {
                    Err(())
                }
            },
            _ => Err(()),
        }
    }

    /// Reads the string property called `name`.
    pub fn meta_string(&self, name: &str) -> (r: Result<(Range, Arc<String>), ()>)
        ensures
            r is Ok <==> string_at(self.data(), self.offset(), name@) is Some,
            r matches Ok((rg, v)) ==> rg.offset == self.offset() && rg.length == 1
                && string_at(self.data(), self.offset(), name@) == Some(v@),
    {
        proof {
            use_type_invariant(self);
        }
        if self.offset >= self.data.len() {
            return Err(());
        }
        match &self.data[self.offset] {
            MetaData::String(n, v) => {
                if str_eq(n.as_str(), name) {
                    Ok((Range::new(self.offset, 1), arc_clone(v)))
                } else {
                    Err(())
                }
            },
            _ => Err(()),
        }
    }

    /// Skips the next item; where it starts a node, skips all items up to the
    /// end of that node.
    pub fn ignore(&self) -> (r: Range)
        requires
            !any_end_at(self.data(), self.offset()),
        ensures
            r.offset == self.offset(),
            r.length == ignore_len(self.data(), self.offset()),
    {
        proof {
            use_type_invariant(self);
        }
        let n = self.data.len();
        let mut depth: usize = 0;
        let mut len: usize = 0;
        let mut i: usize = self.offset;
        let mut done = false;
        while !done && i < n
            invariant
                n == self.data@.len(),
                self.offset <= i <= n,
                len == i - self.offset,
                depth <= len,
                i > self.offset && !done ==> depth > 0,
                i == self.offset ==> depth == 0 && !done,
                !any_end_at(meta_view(self.data@), self.offset as int),
                ignore_len(meta_view(self.data@), self.offset as int) == len + (if done {
                    0
                } else {
                    close_len(meta_view(self.data@), i as int, depth as nat)
                }),
            decreases n - i,
        {
            match &self.data[i] {
                MetaData::StartNode(_) => {
                    depth = depth + 1;
                },
                MetaData::EndNode(_) => {
                    depth = depth - 1;
                },
                _ => {},
            }
            len = len + 1;
            i = i + 1;
            if depth == 0 {
                done = true;
            }
        }
        Range::new(self.offset, len)
    }
}

/// What reading a part of the meta data comes to: whether the reading gets
/// stuck (runs on forever at the end of the data, or fails on a misplaced end of
/// a node), the ranges it ignores on the way, and, where it succeeds, the
/// position after the part together with the value read.
#[verifier::ext_equal]
pub struct Outcome<T> {
    pub stuck: bool,
    pub ignored: Seq<Range>,
    pub result: Option<(int, T)>,
}

/// An outcome that gets stuck.
pub open spec fn stuck<T>() -> Outcome<T> {
    Outcome { stuck: true, ignored: Seq::empty(), result: None }
}

/// An outcome that fails at once, ignoring nothing.
pub open spec fn failed<T>() -> Outcome<T> {
    Outcome { stuck: false, ignored: Seq::empty(), result: None }
}

/// An outcome that succeeds with `v`, ending at `end`, ignoring nothing.
pub open spec fn succeeded<T>(end: int, v: T) -> Outcome<T> {
    Outcome { stuck: false, ignored: Seq::empty(), result: Some((end, v)) }
}

/// An outcome with `ignored` ranges in front of those of `o`.
pub open spec fn after_ignoring<T>(ignored: Seq<Range>, o: Outcome<T>) -> Outcome<T> {
    Outcome { stuck: o.stuck, ignored: ignored + o.ignored, result: o.result }
}

/// The range of one ignored part.
pub open spec fn ignored_range(pos: int, len: nat) -> Range {
    Range { offset: pos as usize, length: len as usize }
}

/// The shared string in an optional field, as characters.
pub open spec fn opt_view(o: Option<Arc<String>>) -> Option<Seq<char>> {
    match o {
        Some(s) => Some(s@),
        None => None,
    }
}

/// The three string properties of a record, as far as they were read.
pub type Fields = (Option<Seq<char>>, Option<Seq<char>>, Option<Seq<char>>);

/// Reads the body of a record node called `node` from `pos` on, up to its end:
/// the string properties `keys.0`, `keys.1` and `keys.2` are kept in `f`
/// (a later one replaces an earlier one), everything else is ignored.
pub open spec fn record_loop(
    data: Seq<MetaView>,
    node: Seq<char>,
    keys: (Seq<char>, Seq<char>, Seq<char>),
    pos: int,
    f: Fields,
) -> Outcome<Fields>
    decreases data.len() - pos,
{
    if pos < 0 || pos >= data.len() || any_end_at(data, pos) && !end_at(data, pos, node) {
        stuck()
    } else if end_at(data, pos, node) {
        Outcome { stuck: false, ignored: Seq::empty(), result: Some((pos + 1, f)) }
    } else if string_at(data, pos, keys.0) is Some {
        record_loop(data, node, keys, pos + 1, (string_at(data, pos, keys.0), f.1, f.2))
    } else if string_at(data, pos, keys.1) is Some {
        record_loop(data, node, keys, pos + 1, (f.0, string_at(data, pos, keys.1), f.2))
    } else if string_at(data, pos, keys.2) is Some {
        record_loop(data, node, keys, pos + 1, (f.0, f.1, string_at(data, pos, keys.2)))
    } else {
        let l = ignore_len(data, pos);
        proof {
            lemma_close_len_bounds(data, pos, 0);
        }
        after_ignoring(seq![ignored_range(pos, l)], record_loop(data, node, keys, pos + l, f))
    }
}

/// Reads a whole record node called `node` at `pos`; it succeeds where the node
/// is there and holds both `keys.0` and `keys.1`.
pub open spec fn record_outcome(
    data: Seq<MetaView>,
    pos: int,
    node: Seq<char>,
    keys: (Seq<char>, Seq<char>, Seq<char>),
) -> Outcome<(Seq<char>, Seq<char>, Option<Seq<char>>)> {
    if !start_at(data, pos, node) {
        failed()
    } else {
        let r = record_loop(data, node, keys, pos + 1, (None, None, None));
        Outcome {
            stuck: r.stuck,
            ignored: r.ignored,
            result: match r.result {
                Some((end, (Some(a), Some(b), c))) => Some((end, (a, b, c))),
                _ => None,
            },
        }
    }
}

/// A record that was read ends after where it started, within the data.
pub proof fn lemma_record_loop_end(
    data: Seq<MetaView>,
    node: Seq<char>,
    keys: (Seq<char>, Seq<char>, Seq<char>),
    pos: int,
    f: Fields,
)
    ensures
        record_loop(data, node, keys, pos, f).result matches Some((e, _)) ==> pos < e <= data.len(),
    decreases data.len() - pos,
{
    if pos < 0 || pos >= data.len() || any_end_at(data, pos) && !end_at(data, pos, node) {
    } else if end_at(data, pos, node) {
    } else if string_at(data, pos, keys.0) is Some {
        lemma_record_loop_end(data, node, keys, pos + 1, (string_at(data, pos, keys.0), f.1, f.2));
    } else if string_at(data, pos, keys.1) is Some {
        lemma_record_loop_end(data, node, keys, pos + 1, (f.0, string_at(data, pos, keys.1), f.2));
    } else if string_at(data, pos, keys.2) is Some {
        lemma_record_loop_end(data, node, keys, pos + 1, (f.0, f.1, string_at(data, pos, keys.2)));
    } else {
        lemma_close_len_bounds(data, pos, 0);
        lemma_record_loop_end(data, node, keys, pos + ignore_len(data, pos) as int, f);
    }
}

/// A record node that was read ends after where it started, within the data.
pub proof fn lemma_record_outcome_end(
    data: Seq<MetaView>,
    pos: int,
    node: Seq<char>,
    keys: (Seq<char>, Seq<char>, Seq<char>),
)
    ensures
        record_outcome(data, pos, node, keys).result matches Some((e, _)) ==> pos < e <= data.len(),
{
    if start_at(data, pos, node) {
        lemma_record_loop_end(data, node, keys, pos + 1, (None, None, None));
    }
}

/// Reads a record node called `node`, with the string properties `k0`, `k1` and
/// `k2`, of which the first two must be there; other items are ignored and their
/// ranges pushed onto `ignored`.
pub fn read_record(
    node: &str,
    k0: &str,
    k1: &str,
    k2: &str,
    convert: Convert,
    ignored: &mut Vec<Range>,
) -> (res: Result<(Range, (Arc<String>, Arc<String>, Option<Arc<String>>)), ()>)
    requires
        !record_outcome(convert.data(), convert.offset(), node@, (k0@, k1@, k2@)).stuck,
    ensures
        ({
            let o = record_outcome(convert.data(), convert.offset(), node@, (k0@, k1@, k2@));
            &&& final(ignored)@ == old(ignored)@ + o.ignored
            &&& match res {
                Ok((r, v)) => r.offset == convert.offset() && o.result == Some(
                    (r.spec_next_offset(), (v.0@, v.1@, opt_view(v.2))),
                ),
                Err(()) => o.result is None,
            }
        }),
{
    let ghost data = convert.data();
    let ghost keys = (k0@, k1@, k2@);
    let start = convert;
    let mut convert = convert;
    convert.lemma_bounds();
    let start_range = match convert.start_node(node) {
        Ok(r) => r,
        Err(()) => {
            assert(old(ignored)@ + Seq::<Range>::empty() =~= old(ignored)@);
            return Err(());
        },
    };
    convert.update(start_range);
    let mut a: Option<Arc<String>> = None;
    let mut b: Option<Arc<String>> = None;
    let mut c: Option<Arc<String>> = None;
    let ghost full = record_loop(data, node@, keys, start.offset() + 1, (None, None, None));
    let ghost mut acc: Seq<Range> = Seq::empty();
    assert(acc + full.ignored =~= full.ignored);
    loop
        invariant_except_break
            keys == (k0@, k1@, k2@),
            convert.data() == data,
            start.data() == data,
            start.offset() < convert.offset() <= data.len(),
            ignored@ == old(ignored)@ + acc,
            full == after_ignoring(acc, record_loop(data, node@, keys, convert.offset(), (opt_view(a), opt_view(b), opt_view(c)))),
            !full.stuck,
        ensures
            convert.data() == data,
            start.offset() < convert.offset() <= data.len(),
            ignored@ == old(ignored)@ + acc,
            full == after_ignoring(acc, Outcome {
                stuck: false,
                ignored: Seq::empty(),
                result: Some((convert.offset(), (opt_view(a), opt_view(b), opt_view(c)))),
            }),
        decreases data.len() - convert.offset(),
    {
        let ghost pos = convert.offset();
        let ghost f = (opt_view(a), opt_view(b), opt_view(c));
        if let Ok(range) = convert.end_node(node) {
            convert.update(range);
            break;
        } else if let Ok((range, val)) = convert.meta_string(k0) {
            convert.update(range);
            a = Some(val);
        } else if let Ok((range, val)) = convert.meta_string(k1) {
            convert.update(range);
            b = Some(val);
        } else if let Ok((range, val)) = convert.meta_string(k2) {
            convert.update(range);
            c = Some(val);
        } else {
            proof {
                lemma_close_len_bounds(data, pos, 0);
            }
            let range = convert.ignore();
            convert.update(range);
            ignored.push(range);
            proof {
                let rest = record_loop(data, node@, keys, convert.offset(), f);
                assert(acc + (seq![range] + rest.ignored) =~= (acc + seq![range]) + rest.ignored);
                assert(record_loop(data, node@, keys, pos, f) == after_ignoring(seq![range], rest));
                let ghost acc0 = acc;
                acc = acc + seq![range];
                assert(after_ignoring(acc0, after_ignoring(seq![range], rest)) =~= after_ignoring(acc, rest));
            }
        }
    }
    assert(full.ignored =~= acc);
    match (a, b) {
        (Some(a), Some(b)) => Ok((convert.subtract(start), (a, b, c))),
        _ => Err(()),
    }
}

/// Where a part of the data is the concatenation `a + b`, each stands at its
/// place.
pub proof fn lemma_split<T>(data: Seq<T>, pos: int, a: Seq<T>, b: Seq<T>)
    requires
        0 <= pos,
        pos + a.len() + b.len() <= data.len(),
        data.subrange(pos, pos + a.len() + b.len()) == a + b,
    ensures
        data.subrange(pos, pos + a.len()) == a,
        data.subrange(pos + a.len(), pos + a.len() + b.len()) == b,
{
    assert(data.subrange(pos, pos + a.len()) =~= (a + b).subrange(0, a.len() as int));
    assert((a + b).subrange(0, a.len() as int) =~= a);
    assert(data.subrange(pos + a.len(), pos + a.len() + b.len()) =~= (a + b).subrange(
        a.len() as int,
        (a.len() + b.len()) as int,
    ));
    assert((a + b).subrange(a.len() as int, (a.len() + b.len()) as int) =~= b);
}

/// Reading a record whose meta data stands at `pos` gives its fields back,
/// ignoring nothing.
pub proof fn lemma_record_loop_reads_fields(
    data: Seq<MetaView>,
    pos: int,
    node: Seq<char>,
    keys: (Seq<char>, Seq<char>, Seq<char>),
    a: Seq<char>,
    b: Seq<char>,
    c: Option<Seq<char>>,
)
    requires
        0 <= pos,
        keys.0 != keys.1,
        keys.0 != keys.2,
        keys.1 != keys.2,
        ({
            let items = seq![MetaView::String(keys.0, a), MetaView::String(keys.1, b)] + match c {
                Some(v) => seq![MetaView::String(keys.2, v)],
                None => Seq::empty(),
            } + seq![MetaView::EndNode(node)];
            &&& pos + items.len() <= data.len()
            &&& data.subrange(pos, pos + items.len()) == items
        }),
    ensures
        ({
            let n: int = if c is Some {
                4
            } else {
                3
            };
            record_loop(data, node, keys, pos, (None, None, None)) == Outcome {
                stuck: false,
                ignored: Seq::<Range>::empty(),
                result: Some((pos + n, (Some(a), Some(b), c))),
            }
        }),
{
    let items = seq![MetaView::String(keys.0, a), MetaView::String(keys.1, b)] + match c {
        Some(v) => seq![MetaView::String(keys.2, v)],
        None => Seq::empty(),
    } + seq![MetaView::EndNode(node)];
    assert(data[pos] == items[0]);
    assert(data[pos + 1] == items[1]);
    assert(data[pos + 2] == items[2]);
    match c {
        Some(v) => {
            assert(data[pos + 3] == items[3]);
            assert(record_loop(data, node, keys, pos + 3, (Some(a), Some(b), c)).result == Some((pos + 4, (Some(a), Some(b), c))));
            assert(record_loop(data, node, keys, pos + 2, (Some(a), Some(b), None)) == record_loop(data, node, keys, pos + 3, (Some(a), Some(b), c)));
            assert(record_loop(data, node, keys, pos + 1, (Some(a), None, None)) == record_loop(data, node, keys, pos + 2, (Some(a), Some(b), None)));
        },
        None => {
            assert(record_loop(data, node, keys, pos + 2, (Some(a), Some(b), None)).result == Some((pos + 3, (Some(a), Some(b), c))));
            assert(record_loop(data, node, keys, pos + 1, (Some(a), None, None)) == record_loop(data, node, keys, pos + 2, (Some(a), Some(b), None)));
        },
    }
    assert(record_loop(data, node, keys, pos, (None, None, None)) == record_loop(data, node, keys, pos + 1, (Some(a), None, None)));
}

} // verus!
