use vstd::prelude::*;
use vstd::std_specs::cmp::PartialEqSpecImpl;
use vstd::std_specs::ops::BitOrSpecImpl;
use vstd::utf8::encode_utf8;
use vstd::utf8::encode_utf8_decode_utf8;
use vstd::utf8::encode_utf8_valid_utf8;
use vstd::utf8::is_char_boundary;
use vstd::utf8::is_char_boundary_iff_not_is_continuation_byte;
use vstd::utf8::is_char_boundary_start_end_of_seq;
use vstd::utf8::valid_utf8;
use vstd::utf8::valid_utf8_split;
use crate::range::Range;
use crate::range::end_of;
use crate::range::start_of;

verus! {

/// Whether every bit set in `inner` is set in `outer`.
pub open spec fn bits_within(inner: u32, outer: u32) -> bool {
    outer & inner == inner
}

/// A set of formatting marks, one bit per mark.
#[derive(Debug, Clone, Copy, PartialEq, Eq, Structural)]
pub struct Marks {
    pub bits: u32,
}

impl Marks {
    /// No mark at all.
    pub fn empty() -> (r: Marks)
        ensures
            r.bits == 0,
    {
        Marks { bits: 0 }
    }

    /// The mark for bold text.
    pub fn bold() -> (r: Marks)
        ensures
            r.bits == 2,
    {
        Marks { bits: 2 }
    }

    /// The mark for italic text.
    pub fn italic() -> (r: Marks)
        ensures
            r.bits == 4,
    {
        Marks { bits: 4 }
    }

    /// The mark for underlined text.
    pub fn underline() -> (r: Marks)
        ensures
            r.bits == 8,
    {
        Marks { bits: 8 }
    }

    /// The bits of the set.
    pub fn bits(&self) -> (r: u32)
        ensures
            r == self.bits,
    {
        self.bits
    }

    /// Whether no mark is set.
    pub fn is_empty(&self) -> (r: bool)
        ensures
            r == (self.bits == 0),
    {
        self.bits == 0
    }

    /// Whether every mark of `other` is set here too.
    pub fn contains(&self, other: Marks) -> (r: bool)
        ensures
            r == bits_within(other.bits, self.bits),
    {
        (self.bits & other.bits) == other.bits
    }

    /// The marks set in either of the two.
    pub fn union(self, other: Marks) -> (r: Marks)
        ensures
            r.bits == self.bits | other.bits,
    {
        Marks { bits: self.bits | other.bits }
    }
}

impl core::ops::BitOr for Marks {
    type Output = Marks;

    fn bitor(self, other: Marks) -> (r: Marks) {
        self.union(other)
    }
}

impl BitOrSpecImpl for Marks {
    open spec fn obeys_bitor_spec() -> bool {
        true
    }

    open spec fn bitor_req(self, other: Marks) -> bool {
        true
    }

    open spec fn bitor_spec(self, other: Marks) -> Marks {
        Marks { bits: self.bits | other.bits }
    }
}

/// What each string of a list is.
pub open spec fn tag_views(tags: Seq<String>) -> Seq<Seq<char>> {
    tags.map_values(|s: String| s@)
}

/// A set of string tags.
#[derive(Debug, Eq)]
pub struct TagSet {
    tags: Vec<String>,
}

impl View for TagSet {
    type V = Set<Seq<char>>;

    closed spec fn view(&self) -> Set<Seq<char>> {
        tag_views(self.tags@).to_set()
    }
}

impl TagSet {
    /// No tag is kept twice.
    #[verifier::type_invariant]
    spec fn distinct(self) -> bool {
        tag_views(self.tags@).no_duplicates()
    }

    /// The set without tags.
    pub fn new() -> (r: TagSet)
        ensures
            r@ == Set::<Seq<char>>::empty(),
    {
        let r = TagSet { tags: Vec::new() };
        assert(r@ =~= Set::<Seq<char>>::empty());
        r
    }

    /// How many tags the set holds.
    pub fn len(&self) -> (n: usize)
        ensures
            n == self@.len(),
            self@.finite(),
    {
        proof {
            use_type_invariant(self);
            tag_views(self.tags@).unique_seq_to_set();
        }
        self.tags.len()
    }

    /// Whether the set holds `tag`.
    pub fn contains(&self, tag: &String) -> (r: bool)
        ensures
            r == self@.contains(tag@),
    {
        let mut i: usize = 0;
        while i < self.tags.len()
            invariant
                i <= self.tags@.len(),
                forall|j: int| 0 <= j < i ==> tag_views(self.tags@)[j] != tag@,
            decreases self.tags.len() - i,
        {
            if self.tags[i] == *tag {
                assert(tag_views(self.tags@)[i as int] == tag@);
                return true;
            }
            i += 1;
        }
        false
    }

    /// The set with `tag` added.
    pub fn insert(self, tag: String) -> (r: TagSet)
        ensures
            r@ == self@.insert(tag@),
    {
        if self.contains(&tag) {
            assert(self@.insert(tag@) =~= self@);
            self
        } else {
            proof {
                use_type_invariant(&self);
                assert(tag_views(self.tags@.push(tag)) =~= tag_views(self.tags@).push(tag@));
                tag_views(self.tags@).lemma_push_to_set_commute(tag@);
            }
            let mut tags = self.tags;
            tags.push(tag);
            TagSet { tags }
        }
    }

    /// The tags that are in either of the two sets.
    pub fn union(&self, other: &TagSet) -> (r: TagSet)
        ensures
            r@ == self@.union(other@),
    {
        let mut r = self.clone();
        let mut i: usize = 0;
        while i < other.tags.len()
            invariant
                i <= other.tags@.len(),
                r@ == self@.union(tag_views(other.tags@).subrange(0, i as int).to_set()),
            decreases other.tags.len() - i,
        {
            let tag = other.tags[i].clone();
            r = r.insert(tag);
            proof {
                let views = tag_views(other.tags@);
                assert(views.subrange(0, i + 1) =~= views.subrange(0, i as int).push(views[i as int]));
                views.subrange(0, i as int).lemma_push_to_set_commute(views[i as int]);
                assert(r@ =~= self@.union(views.subrange(0, i + 1).to_set()));
            }
            i += 1;
        }
        assert(tag_views(other.tags@).subrange(0, i as int) =~= tag_views(other.tags@));
        r
    }

    /// Whether every tag of this set is in `other` too.
    pub fn is_subset(&self, other: &TagSet) -> (r: bool)
        ensures
            r == self@.subset_of(other@),
    {
        let mut i: usize = 0;
        while i < self.tags.len()
            invariant
                i <= self.tags@.len(),
                forall|j: int| 0 <= j < i ==> other@.contains(#[trigger] tag_views(self.tags@)[j]),
            decreases self.tags.len() - i,
        {
            if !other.contains(&self.tags[i]) {
                assert(self@.contains(tag_views(self.tags@)[i as int]));
                return false;
            }
            i += 1;
        }
        true
    }

    /// The tags of the set, each once, in no particular order.
    pub fn tags(&self) -> (r: Vec<String>)
        ensures
            tag_views(r@).to_set() == self@,
            tag_views(r@).no_duplicates(),
    {
        proof {
            use_type_invariant(self);
        }
        let c = self.clone();
        proof {
            use_type_invariant(&c);
        }
        c.tags
    }
}

impl Clone for TagSet {
    fn clone(&self) -> (r: TagSet)
        ensures
            r@ == self@,
    {
        proof {
            use_type_invariant(self);
        }
        let mut tags: Vec<String> = Vec::new();
        let mut i: usize = 0;
        while i < self.tags.len()
            invariant
                i <= self.tags@.len(),
                tag_views(tags@) == tag_views(self.tags@).subrange(0, i as int),
                tag_views(self.tags@).no_duplicates(),
            decreases self.tags.len() - i,
        {
            let ghost before = tags@;
            let tag = self.tags[i].clone();
            tags.push(tag);
            assert(tag_views(tags@) =~= tag_views(before).push(tag@));
            assert(tag_views(tags@) =~= tag_views(self.tags@).subrange(0, i + 1));
            i += 1;
        }
        assert(tag_views(tags@) =~= tag_views(self.tags@));
        TagSet { tags }
    }
}

impl PartialEq for TagSet {
    fn eq(&self, other: &TagSet) -> (r: bool) {
        let r = self.is_subset(other) && other.is_subset(self);
        assert(r == (self@ =~= other@));
        r
    }
}

impl PartialEqSpecImpl for TagSet {
    open spec fn obeys_eq_spec() -> bool {
        true
    }

    open spec fn eq_spec(&self, other: &TagSet) -> bool {
        self@ == other@
    }
}

impl TagSet {
    /// The set of the given tags. A tag given twice is kept once.
    pub fn of(tags: Vec<String>) -> (r: TagSet)
        ensures
            r@ == tag_views(tags@).to_set(),
    {
        let mut r = TagSet::new();
        let mut i: usize = 0;
        while i < tags.len()
            invariant
                i <= tags@.len(),
                r@ == tag_views(tags@).subrange(0, i as int).to_set(),
            decreases tags.len() - i,
        {
            r = r.insert(tags[i].clone());
            proof {
                let views = tag_views(tags@);
                assert(views.subrange(0, i + 1) =~= views.subrange(0, i as int).push(views[i as int]));
                views.subrange(0, i as int).lemma_push_to_set_commute(views[i as int]);
            }
            i += 1;
        }
        assert(tag_views(tags@).subrange(0, i as int) =~= tag_views(tags@));
        r
    }
}

/// A decoration: the range of the text that it covers, and the tags to
/// attach there.
pub type Decoration = (Range, TagSet);

/// What a text leaf is: its string, its marks, and its tags. The string is
/// held as the bytes of its UTF-8 form, in which lengths and offsets are
/// counted.
pub struct TextView {
    pub text: Seq<u8>,
    pub marks: Marks,
    pub meta: Set<Seq<char>>,
}

/// What each leaf of a list is.
pub open spec fn texts_view(leaves: Seq<Text>) -> Seq<TextView> {
    leaves.map_values(|t: Text| t@)
}

/// What each decoration of a list is: the offsets at which it starts and
/// ends, and its tags.
pub open spec fn decorations_view(decorations: Seq<Decoration>) -> Seq<(int, int, Set<Seq<char>>)> {
    decorations.map_values(
        |d: Decoration| (start_of(d.0@).offset, end_of(d.0@).offset, d.1@),
    )
}

/// The leaf `l` cut down to its bytes from `from` up to `to`.
pub open spec fn piece(l: TextView, from: int, to: int) -> TextView {
    TextView { text: l.text.subrange(from, to), marks: l.marks, meta: l.meta }
}

/// The leaf `l` with `tags` added to its tags.
pub open spec fn tagged(l: TextView, tags: Set<Seq<char>>) -> TextView {
    TextView { text: l.text, marks: l.marks, meta: l.meta.union(tags) }
}

/// The strings of the leaves, one after the other.
pub open spec fn joined(leaves: Seq<TextView>) -> Seq<u8>
    decreases leaves.len(),
{
    if leaves.len() == 0 {
        Seq::empty()
    } else {
        joined(leaves.drop_last()) + leaves.last().text
    }
}

/// What becomes of the leaf `l`, whose first byte stands at offset `o` of the
/// whole text, under a decoration from `start` to `end`.
///
/// A leaf that the decoration covers gets the tags. A leaf that it misses
/// stays as it is; a decoration that ends where the leaf begins misses it,
/// except at the very start of the text. Any other leaf is cut at the ends of
/// the decoration that fall inside it: what lies before `start` and what lies
/// from `end` on stay as they are, and what lies between gets the tags.
pub open spec fn decorate_leaf(
    l: TextView,
    o: int,
    start: int,
    end: int,
    tags: Set<Seq<char>>,
) -> Seq<TextView> {
    let len = l.text.len() as int;
    if start <= o && end >= o + len {
        seq![tagged(l, tags)]
    } else if start > o + len || end < o || (end == o && o != 0) {
        seq![l]
    } else {
        let lo = if start > o {
            start - o
        } else {
            0
        };
        let hi = if end < o + len {
            end - o
        } else {
            len
        };
        let head = if start > o {
            seq![piece(l, 0, lo)]
        } else {
            Seq::empty()
        };
        let tail = if end < o + len {
            seq![piece(l, hi, len)]
        } else {
            Seq::empty()
        };
        head + seq![tagged(piece(l, lo, hi), tags)] + tail
    }
}

/// What becomes of the leaves of a text, in order, under one decoration.
pub open spec fn decorate_leaves(
    leaves: Seq<TextView>,
    start: int,
    end: int,
    tags: Set<Seq<char>>,
) -> Seq<TextView>
    decreases leaves.len(),
{
    if leaves.len() == 0 {
        Seq::empty()
    } else {
        decorate_leaves(leaves.drop_last(), start, end, tags) + decorate_leaf(
            leaves.last(),
            joined(leaves.drop_last()).len() as int,
            start,
            end,
            tags,
        )
    }
}

/// The leaves that the leaf `l` is cut into by the decorations, applied in
/// order, each given by its start, its end and its tags.
pub open spec fn decorated(l: TextView, decorations: Seq<(int, int, Set<Seq<char>>)>) -> Seq<
    TextView,
>
    decreases decorations.len(),
{
    if decorations.len() == 0 {
        seq![l]
    } else {
        let d = decorations.last();
        decorate_leaves(decorated(l, decorations.drop_last()), d.0, d.1, d.2)
    }
}

/// Every leaf of the list carries the marks `marks` and at least the tags
/// `meta`.
pub open spec fn all_carry(leaves: Seq<TextView>, marks: Marks, meta: Set<Seq<char>>) -> bool {
    forall|i: int|
        0 <= i < leaves.len() ==> (#[trigger] leaves[i]).marks == marks && meta.subset_of(
            leaves[i].meta,
        )
}

/// The decoration from `start` to `end` cuts the leaf `l`, whose first byte
/// stands at offset `o` of the whole text, cleanly: it covers the leaf or
/// misses it, or else it starts at or before the offset at which it ends, and
/// each of its ends that falls inside the leaf falls between two characters.
pub open spec fn cuts_cleanly(l: TextView, o: int, start: int, end: int) -> bool {
    let len = l.text.len() as int;
    ||| start <= o && end >= o + len
    ||| start > o + len || end < o || (end == o && o != 0)
    ||| {
        &&& start <= end
        &&& end < o + len ==> is_char_boundary(l.text, end - o)
        &&& start > o ==> is_char_boundary(l.text, start - o)
    }
}

/// The decoration from `start` to `end` cuts each of the leaves of a text
/// cleanly.
pub open spec fn leaves_cut_cleanly(leaves: Seq<TextView>, start: int, end: int) -> bool
    decreases leaves.len(),
{
    leaves.len() == 0 || (leaves_cut_cleanly(leaves.drop_last(), start, end) && cuts_cleanly(
        leaves.last(),
        joined(leaves.drop_last()).len() as int,
        start,
        end,
    ))
}

/// Each of the decorations, applied in order, cuts cleanly the leaves that
/// the decorations before it have cut the leaf `l` into.
pub open spec fn decorable(l: TextView, decorations: Seq<(int, int, Set<Seq<char>>)>) -> bool
    decreases decorations.len(),
{
    decorations.len() == 0 || (decorable(l, decorations.drop_last()) && leaves_cut_cleanly(
        decorated(l, decorations.drop_last()),
        decorations.last().0,
        decorations.last().1,
    ))
}

/// A decoration that cuts the leaves of a text cleanly cuts the first `k` of
/// them cleanly.
pub proof fn lemma_clean_prefix(leaves: Seq<TextView>, start: int, end: int, k: int)
    requires
        0 <= k <= leaves.len(),
        leaves_cut_cleanly(leaves, start, end),
    ensures
        leaves_cut_cleanly(leaves.subrange(0, k), start, end),
    decreases leaves.len() - k,
{
    if k < leaves.len() {
        lemma_clean_prefix(leaves, start, end, k + 1);
        assert(leaves.subrange(0, k + 1).drop_last() =~= leaves.subrange(0, k));
    } else {
        assert(leaves.subrange(0, k) =~= leaves);
    }
}

/// Decorations that can be applied can be applied up to the `k`th.
pub proof fn lemma_decorable_prefix(
    l: TextView,
    decorations: Seq<(int, int, Set<Seq<char>>)>,
    k: int,
)
    requires
        0 <= k <= decorations.len(),
        decorable(l, decorations),
    ensures
        decorable(l, decorations.subrange(0, k)),
    decreases decorations.len() - k,
{
    if k < decorations.len() {
        lemma_decorable_prefix(l, decorations, k + 1);
        assert(decorations.subrange(0, k + 1).drop_last() =~= decorations.subrange(0, k));
    } else {
        assert(decorations.subrange(0, k) =~= decorations);
    }
}

/// A place between two characters of a string that lies at or before another
/// such place lies between two characters of the part of the string before
/// that other place.
pub proof fn lemma_boundary_in_front(bytes: Seq<u8>, lo: int, hi: int)
    requires
        valid_utf8(bytes),
        0 <= lo <= hi <= bytes.len(),
        is_char_boundary(bytes, lo),
        is_char_boundary(bytes, hi),
    ensures
        valid_utf8(bytes.subrange(0, hi)),
        is_char_boundary(bytes.subrange(0, hi), lo),
{
    let front = bytes.subrange(0, hi);
    valid_utf8_split(bytes, hi);
    if lo == hi {
        is_char_boundary_start_end_of_seq(front);
    } else {
        is_char_boundary_iff_not_is_continuation_byte(bytes, lo);
        is_char_boundary_iff_not_is_continuation_byte(front, lo);
    }
}

/// Cutting one leaf under a decoration keeps its string, its marks and its
/// tags.
pub proof fn lemma_decorate_leaf_covers(
    l: TextView,
    o: int,
    start: int,
    end: int,
    tags: Set<Seq<char>>,
)
    requires
        cuts_cleanly(l, o, start, end),
        0 <= o,
    ensures
        joined(decorate_leaf(l, o, start, end, tags)) == l.text,
        all_carry(decorate_leaf(l, o, start, end, tags), l.marks, l.meta),
{
    let out = decorate_leaf(l, o, start, end, tags);
    let len = l.text.len() as int;
    reveal_with_fuel(joined, 4);
    if start <= o && end >= o + len {
        assert(out.drop_last() =~= Seq::empty());
        assert(joined(out) =~= l.text);
    } else if start > o + len || end < o || (end == o && o != 0) {
        assert(out.drop_last() =~= Seq::empty());
        assert(joined(out) =~= l.text);
    } else {
        let lo = if start > o {
            start - o
        } else {
            0
        };
        let hi = if end < o + len {
            end - o
        } else {
            len
        };
        let mid = tagged(piece(l, lo, hi), tags);
        if start > o {
            if end < o + len {
                assert(out =~= seq![piece(l, 0, lo), mid, piece(l, hi, len)]);
                assert(out.drop_last() =~= seq![piece(l, 0, lo), mid]);
                assert(out.drop_last().drop_last() =~= seq![piece(l, 0, lo)]);
                assert(out.drop_last().drop_last().drop_last() =~= Seq::empty());
                assert(joined(out) =~= l.text);
            } else {
                assert(out =~= seq![piece(l, 0, lo), mid]);
                assert(out.drop_last() =~= seq![piece(l, 0, lo)]);
                assert(out.drop_last().drop_last() =~= Seq::empty());
                assert(joined(out) =~= l.text);
            }
        } else {
            if end < o + len {
                assert(out =~= seq![mid, piece(l, hi, len)]);
                assert(out.drop_last() =~= seq![mid]);
                assert(out.drop_last().drop_last() =~= Seq::empty());
                assert(joined(out) =~= l.text);
            } else {
                assert(out =~= seq![mid]);
                assert(out.drop_last() =~= Seq::empty());
                assert(joined(out) =~= l.text);
            }
        }
    }
}

/// The strings of two lists of leaves, joined, are the joined strings of the
/// first list followed by those of the second.
pub proof fn lemma_joined_concat(a: Seq<TextView>, b: Seq<TextView>)
    ensures
        joined(a + b) == joined(a) + joined(b),
    decreases b.len(),
{
    if b.len() == 0 {
        assert(a + b =~= a);
        assert(joined(a) + joined(b) =~= joined(a));
    } else {
        assert((a + b).drop_last() =~= a + b.drop_last());
        lemma_joined_concat(a, b.drop_last());
        assert(joined(a + b) =~= joined(a) + joined(b));
    }
}

/// Cutting the leaves of a text under a decoration keeps the text, the marks
/// and the tags.
pub proof fn lemma_decorate_leaves_covers(
    leaves: Seq<TextView>,
    start: int,
    end: int,
    tags: Set<Seq<char>>,
    marks: Marks,
    meta: Set<Seq<char>>,
)
    requires
        leaves_cut_cleanly(leaves, start, end),
        all_carry(leaves, marks, meta),
    ensures
        joined(decorate_leaves(leaves, start, end, tags)) == joined(leaves),
        all_carry(decorate_leaves(leaves, start, end, tags), marks, meta),
    decreases leaves.len(),
{
    if leaves.len() > 0 {
        let front = leaves.drop_last();
        let o = joined(front).len() as int;
        lemma_decorate_leaves_covers(front, start, end, tags, marks, meta);
        lemma_decorate_leaf_covers(leaves.last(), o, start, end, tags);
        lemma_joined_concat(
            decorate_leaves(front, start, end, tags),
            decorate_leaf(leaves.last(), o, start, end, tags),
        );
    }
}

/// The leaves that a leaf is cut into by decorations hold, one after the
/// other, the string of the leaf; each carries the marks of the leaf and at
/// least its tags.
pub proof fn lemma_decorated_covers(l: TextView, decorations: Seq<(int, int, Set<Seq<char>>)>)
    requires
        decorable(l, decorations),
    ensures
        joined(decorated(l, decorations)) == l.text,
        all_carry(decorated(l, decorations), l.marks, l.meta),
    decreases decorations.len(),
{
    if decorations.len() == 0 {
        reveal_with_fuel(joined, 2);
        assert(seq![l].drop_last() =~= Seq::empty());
        assert(joined(seq![l]) =~= l.text);
    } else {
        let d = decorations.last();
        lemma_decorated_covers(l, decorations.drop_last());
        lemma_decorate_leaves_covers(
            decorated(l, decorations.drop_last()),
            d.0,
            d.1,
            d.2,
            l.marks,
            l.meta,
        );
    }
}

/// A leaf of the document tree: a string with its marks and its tags.
#[derive(Debug, Eq)]
pub struct Text(String, Marks, TagSet);

impl View for Text {
    type V = TextView;

    closed spec fn view(&self) -> TextView {
        TextView { text: encode_utf8(self.0@), marks: self.1, meta: self.2@ }
    }
}

impl Clone for Text {
    fn clone(&self) -> (r: Text)
        ensures
            r@ == self@,
    {
        Text(self.0.clone(), self.1, self.2.clone())
    }
}

impl PartialEq for Text {
    fn eq(&self, other: &Text) -> (r: bool) {
        proof {
            encode_utf8_decode_utf8(self.0@);
            encode_utf8_decode_utf8(other.0@);
        }
        self.0 == other.0 && self.1 == other.1 && self.2 == other.2
    }
}

impl PartialEqSpecImpl for Text {
    open spec fn obeys_eq_spec() -> bool {
        true
    }

    open spec fn eq_spec(&self, other: &Text) -> bool {
        self@ == other@
    }
}

impl Text {
    /// A leaf with the given string, without marks or tags.
    pub fn new(text: &str) -> (r: Text)
        ensures
            r@ == (TextView {
                text: encode_utf8(text@),
                marks: Marks { bits: 0 },
                meta: Set::empty(),
            }),
    {
        Text(String::from_str(text), Marks::empty(), TagSet::new())
    }

    /// A leaf with the given string and tags, without marks.
    pub fn with_meta(text: &str, meta: TagSet) -> (r: Text)
        ensures
            r@ == (TextView { text: encode_utf8(text@), marks: Marks { bits: 0 }, meta: meta@ }),
    {
        Text(String::from_str(text), Marks::empty(), meta)
    }

    /// A leaf with the given string and marks, without tags.
    pub fn with_marks(text: &str, marks: Marks) -> (r: Text)
        ensures
            r@ == (TextView { text: encode_utf8(text@), marks, meta: Set::empty() }),
    {
        Text(String::from_str(text), marks, TagSet::new())
    }

    /// A leaf with the given string, marks and tags.
    pub fn with_marks_and_meta(text: &str, marks: Marks, meta: TagSet) -> (r: Text)
        ensures
            r@ == (TextView { text: encode_utf8(text@), marks, meta: meta@ }),
    {
        Text(String::from_str(text), marks, meta)
    }

    /// The string of the leaf.
    pub fn text(&self) -> (r: &str)
        ensures
            encode_utf8(r@) == self@.text,
    {
        self.0.as_str()
    }

    /// The marks of the leaf.
    pub fn marks(&self) -> (r: Marks)
        ensures
            r == self@.marks,
    {
        self.1
    }

    /// The tags of the leaf.
    pub fn meta(&self) -> (r: &TagSet)
        ensures
            r@ == self@.meta,
    {
        &self.2
    }

    /// How many bytes the string of the leaf holds.
    pub fn len(&self) -> (n: usize)
        ensures
            n == self@.text.len(),
    {
        self.0.as_str().as_bytes().len()
    }

    /// Whether `a` carries every mark that `b` carries. The strings and the
    /// tags are not compared.
    pub fn matches(a: Text, b: Text) -> (r: bool)
        ensures
            r == bits_within(b@.marks.bits, a@.marks.bits),
    {
        a.1.contains(b.1)
    }

    /// The leaf with `tags` added to its tags.
    fn tag(self, tags: &TagSet) -> (r: Text)
        ensures
            r@ == tagged(self@, tags@),
    {
        let meta = self.2.union(tags);
        Text(self.0, self.1, meta)
    }

    /// Appends to `out` what becomes of the leaf, whose first byte stands at
    /// offset `o` of the whole text, under a decoration from `start` to `end`
    /// with the tags `tags`, and says whether the decoration cuts the leaf
    /// cleanly. Where it does not, nothing is said of `out`.
    fn decorate_into(
        &self,
        o: usize,
        start: usize,
        end: usize,
        tags: &TagSet,
        out: &mut Vec<Text>,
    ) -> (ok: bool)
        requires
            o + self@.text.len() <= usize::MAX,
        ensures
            ok == cuts_cleanly(self@, o as int, start as int, end as int),
            ok ==> texts_view(final(out)@) == texts_view(old(out)@) + decorate_leaf(
                self@,
                o as int,
                start as int,
                end as int,
                tags@,
            ),
    {
        let string = self.0.as_str();
        let len = string.as_bytes().len();
        let ghost bytes = self@.text;
        let ghost before_out = texts_view(out@);
        let ghost want = decorate_leaf(self@, o as int, start as int, end as int, tags@);
        proof {
            encode_utf8_valid_utf8(self.0@);
            is_char_boundary_start_end_of_seq(bytes);
        }
        if start <= o && end >= o + len {
            let leaf = self.clone().tag(tags);
            out.push(leaf);
            assert(texts_view(out@) =~= before_out + want);
            return true;
        }
        if start > o + len || end < o || (end == o && o != 0) {
            out.push(self.clone());
            assert(texts_view(out@) =~= before_out + want);
            return true;
        }
        if start > end {
            return false;
        }
        let cut_start = start > o;
        let cut_end = end < o + len;
        let lo = if cut_start {
            start - o
        } else {
            0
        };
        let hi = if cut_end {
            end - o
        } else {
            len
        };
        if cut_end && !string.is_char_boundary(hi) {
            return false;
        }
        if cut_start && !string.is_char_boundary(lo) {
            return false;
        }
        proof {
            lemma_boundary_in_front(bytes, lo as int, hi as int);
        }
        let (front, behind) = string.split_at(hi);
        let (head, middle) = front.split_at(lo);
        assert(encode_utf8(head@) =~= bytes.subrange(0, lo as int));
        assert(encode_utf8(middle@) =~= bytes.subrange(lo as int, hi as int));
        assert(encode_utf8(behind@) =~= bytes.subrange(hi as int, len as int));
        if cut_start {
            out.push(Text(String::from_str(head), self.1, self.2.clone()));
        }
        out.push(Text(String::from_str(middle), self.1, self.2.clone()).tag(tags));
        if cut_end {
            out.push(Text(String::from_str(behind), self.1, self.2.clone()));
        }
        assert(texts_view(out@) =~= before_out + want);
        true
    }

    /// The leaves that this leaf is cut into by the decorations, applied in
    /// order, or nothing where one of them does not cut cleanly.
    ///
    /// Each decoration attaches its tags to the bytes from the offset of its
    /// range's start up to the offset of its range's end; the leaves are cut
    /// where a decoration starts or ends. Together the leaves hold the string
    /// of this leaf, and each carries its marks and at least its tags.
    pub fn try_decorations(self, decorations: Vec<Decoration>) -> (r: Option<Vec<Text>>)
        ensures
            r is Some <==> decorable(self@, decorations_view(decorations@)),
            match r {
                Some(leaves) => {
                    &&& texts_view(leaves@) == decorated(self@, decorations_view(decorations@))
                    &&& joined(texts_view(leaves@)) == self@.text
                    &&& all_carry(texts_view(leaves@), self@.marks, self@.meta)
                },
                None => true,
            },
    {
        let ghost whole = self@;
        let ghost decs = decorations_view(decorations@);
        let total = self.len();
        let mut leaves: Vec<Text> = Vec::new();
        leaves.push(self);
        assert(texts_view(leaves@) =~= seq![whole]);
        assert(decs.subrange(0, 0) =~= Seq::empty());
        let mut i: usize = 0;
        while i < decorations.len()
            invariant
                i <= decorations@.len(),
                whole == self@,
                decs == decorations_view(decorations@),
                total == whole.text.len(),
                decorable(whole, decs.subrange(0, i as int)),
                texts_view(leaves@) == decorated(whole, decs.subrange(0, i as int)),
            decreases decorations.len() - i,
        {
            let ghost done = decs.subrange(0, i as int);
            let ghost current = texts_view(leaves@);
            let (start, end) = decorations[i].0.edges(false);
            let tags = &decorations[i].1;
            let ghost d = decs[i as int];
            assert(d == (start@.offset, end@.offset, tags@));
            proof {
                lemma_decorated_covers(whole, done);
                assert(decs.subrange(0, i + 1).drop_last() =~= done);
                assert(decs.subrange(0, i + 1).last() == d);
            }
            let mut next: Vec<Text> = Vec::new();
            let mut o: usize = 0;
            let mut j: usize = 0;
            assert(current.subrange(0, 0) =~= Seq::empty());
            assert(texts_view(next@) =~= Seq::empty());
            while j < leaves.len()
                invariant
                    j <= leaves@.len(),
                    i < decorations@.len(),
                    whole == self@,
                    current == texts_view(leaves@),
                    joined(current) == whole.text,
                    total == whole.text.len(),
                    decs == decorations_view(decorations@),
                    d == decs[i as int],
                    d == (start@.offset, end@.offset, tags@),
                    decs.subrange(0, i + 1).drop_last() == decs.subrange(0, i as int),
                    decs.subrange(0, i + 1).last() == d,
                    current == decorated(whole, decs.subrange(0, i as int)),
                    o == joined(current.subrange(0, j as int)).len(),
                    leaves_cut_cleanly(current.subrange(0, j as int), d.0, d.1),
                    texts_view(next@) == decorate_leaves(
                        current.subrange(0, j as int),
                        d.0,
                        d.1,
                        tags@,
                    ),
                decreases leaves.len() - j,
            {
                let ghost front = current.subrange(0, j as int);
                let ghost upto = current.subrange(0, j + 1);
                proof {
                    assert(upto.drop_last() =~= front);
                    assert(upto.last() == leaves@[j as int]@);
                    assert(current =~= upto + current.subrange(j + 1, current.len() as int));
                    lemma_joined_concat(upto, current.subrange(j + 1, current.len() as int));
                }
                let len = leaves[j].len();
                let clean = leaves[j].decorate_into(o, start.offset, end.offset, tags, &mut next);
                if !clean {
                    proof {
                        assert(!leaves_cut_cleanly(upto, d.0, d.1));
                        if leaves_cut_cleanly(current, d.0, d.1) {
                            lemma_clean_prefix(current, d.0, d.1, j + 1);
                        }
                        assert(!decorable(whole, decs.subrange(0, i + 1)));
                        if decorable(whole, decs) {
                            lemma_decorable_prefix(whole, decs, i + 1);
                        }
                    }
                    return None;
                }
                o = o + len;
                j += 1;
            }
            proof {
                assert(current.subrange(0, j as int) =~= current);
            }
            leaves = next;
            i += 1;
        }
        proof {
            assert(decs.subrange(0, i as int) =~= decs);
            lemma_decorated_covers(whole, decs);
        }
        Some(leaves)
    }

    /// The leaves that this leaf is cut into by the decorations, applied in
    /// order. Each decoration attaches its tags to the bytes from the offset
    /// of its range's start up to the offset of its range's end; the leaves
    /// are cut where a decoration starts or ends. Together the leaves hold
    /// the string of this leaf, and each carries its marks and at least its
    /// tags.
    pub fn decorations(self, decorations: Vec<Decoration>) -> (r: Vec<Text>)
        requires
            decorable(self@, decorations_view(decorations@)),
        ensures
            texts_view(r@) == decorated(self@, decorations_view(decorations@)),
            joined(texts_view(r@)) == self@.text,
            all_carry(texts_view(r@), self@.marks, self@.meta),
    {
        self.try_decorations(decorations).unwrap()
    }
}

} // verus!
