//! The digit glyph atlas ChangingDecimal composes numbers from: one glyph
//! (outline and advance width) per character, baked once at authoring time.
use vstd::prelude::*;

verus! {

/// Glyphs by character; at most one entry per character. `P` is the
/// outline type and `W` the advance width.
#[derive(Clone, Debug)]
pub struct DigitAtlas<P, W> {
    glyphs: Vec<(char, P, W)>,
}

/// The index of the first entry for `ch`, if any.
pub open spec fn slot_of<P, W>(g: Seq<(char, P, W)>, ch: char) -> Option<int>
    decreases g.len(),
{
    if g.len() == 0 {
        None
    } else {
        match slot_of(g.drop_last(), ch) {
            Some(i) => Some(i),
            None => if g.last().0 == ch {
                Some(g.len() - 1)
            } else {
                None
            },
        }
    }
}

impl<P, W: Copy> DigitAtlas<P, W> {
    /// The entries, in insertion order.
    pub closed spec fn entries(&self) -> Seq<(char, P, W)> {
        self.glyphs@
    }

    /// Characters are not repeated.
    pub open spec fn wf(&self) -> bool {
        forall|i: int, j: int|
            0 <= i < j < self.entries().len() ==> #[trigger] self.entries()[i].0 != #[trigger] self.entries()[j].0
    }

    /// An empty atlas.
    pub fn new() -> (a: Self)
        ensures
            a.wf(),
            a.entries() == Seq::<(char, P, W)>::empty(),
    {
        DigitAtlas { glyphs: Vec::new() }
    }

    /// Whether the atlas has no glyph.
    pub fn is_empty(&self) -> (b: bool)
        ensures
            b == (self.entries().len() == 0),
    {
        self.glyphs.len() == 0
    }

    /// The first entry for `ch`, by index.
    fn find(&self, ch: char) -> (r: Option<usize>)
        ensures
            r matches Some(i) ==> slot_of(self.entries(), ch) == Some(i as int),
            r is None ==> slot_of(self.entries(), ch) is None,
    {
        let mut i: usize = 0;
        while i < self.glyphs.len()
            invariant
                i <= self.glyphs@.len(),
                slot_of(self.glyphs@.subrange(0, i as int), ch) is None,
            decreases self.glyphs@.len() - i,
        {
            proof {
                let p = self.glyphs@.subrange(0, i + 1);
                assert(p.drop_last() =~= self.glyphs@.subrange(0, i as int));
            }
            if self.glyphs[i].0 == ch {
                proof {
                    lemma_slot_prefix(self.glyphs@, ch, i + 1);
                }
                return Some(i);
            }
            i = i + 1;
        }
        proof {
            assert(self.glyphs@.subrange(0, self.glyphs@.len() as int) =~= self.glyphs@);
        }
        None
    }

    /// Set the glyph for `ch`: replaces its entry if there is one, else
    /// appends one.
    pub fn insert(&mut self, ch: char, path: P, width: W)
        requires
            old(self).wf(),
        ensures
            final(self).wf(),
            final(self).entries() == inserted(old(self).entries(), ch, path, width),
    {
        match self.find(ch) {
            Some(i) => {
                proof {
                    lemma_slot(self.glyphs@, ch);
                }
                self.glyphs.set(i, (ch, path, width));
            },
            None => {
                proof {
                    lemma_slot(self.glyphs@, ch);
                }
                self.glyphs.push((ch, path, width));
            },
        }
    }

    /// The outline and advance width of `ch`, if the atlas has it.
    pub fn lookup(&self, ch: char) -> (r: Option<(&P, W)>)
        ensures
            match slot_of(self.entries(), ch) {
                Some(i) => r matches Some(p) && *p.0 == self.entries()[i].1 && p.1
                    == self.entries()[i].2,
                None => r is None,
            },
    {
        match self.find(ch) {
            Some(i) => {
                proof {
                    lemma_slot(self.glyphs@, ch);
                }
                Some((&self.glyphs[i].1, self.glyphs[i].2))
            },
            None => None,
        }
    }
}

/// `slot_of` finds an entry with the character, before which there is
/// none; `None` means no entry has it.
pub proof fn lemma_slot<P, W>(g: Seq<(char, P, W)>, ch: char)
    ensures
        slot_of(g, ch) matches Some(i) ==> 0 <= i < g.len() && g[i].0 == ch && forall|j: int|
            0 <= j < i ==> g[j].0 != ch,
        slot_of(g, ch) is None ==> forall|j: int| 0 <= j < g.len() ==> g[j].0 != ch,
    decreases g.len(),
{
    if g.len() > 0 {
        let t = g.drop_last();
        lemma_slot(t, ch);
        assert forall|j: int| 0 <= j < t.len() implies t[j] == g[j] by {}
        match slot_of(t, ch) {
            Some(i) => {
                assert(g[i].0 == ch);
            },
            None => {
                if g.last().0 == ch {
                    assert(g[g.len() - 1].0 == ch);
                }
            },
        }
    }
}

/// The entries after `insert(ch, path, width)`: the entry for `ch`
/// replaced, or one appended.
pub open spec fn inserted<P, W>(g: Seq<(char, P, W)>, ch: char, path: P, width: W) -> Seq<(char, P, W)> {
    match slot_of(g, ch) {
        Some(i) => g.update(i, (ch, path, width)),
        None => g.push((ch, path, width)),
    }
}

/// Reading back a write: after inserting a glyph for `ch`, looking `ch` up
/// finds exactly that glyph, and every other character finds what it found
/// before, at the same place.
pub proof fn law_lookup_after_insert<P, W>(g: Seq<(char, P, W)>, ch: char, path: P, width: W, other: char)
    ensures
        slot_of(inserted(g, ch, path, width), ch) matches Some(i) && inserted(g, ch, path, width)[i]
            == (ch, path, width),
        other != ch ==> slot_of(inserted(g, ch, path, width), other) == slot_of(g, other),
        other != ch ==> (slot_of(g, other) matches Some(j) ==> inserted(g, ch, path, width)[j]
            == g[j]),
{
    let h = inserted(g, ch, path, width);
    lemma_slot(g, ch);
    lemma_slot(h, ch);
    lemma_slot(g, other);
    lemma_slot(h, other);
    let k: int = match slot_of(g, ch) {
        Some(i) => i,
        None => g.len() as int,
    };
    assert(h.len() >= g.len());
    assert(0 <= k < h.len() && h[k] == (ch, path, width));
    assert(forall|j: int| 0 <= j < g.len() && j != k ==> h[j] == g[j]);
    assert(forall|j: int| 0 <= j < k ==> #[trigger] h[j].0 != ch);
    match slot_of(h, ch) {
        Some(m) => {
            if m < k {
                assert(h[m].0 != ch);
            }
            if m > k {
                assert(h[k].0 == ch);
            }
        },
        None => {
            assert(h[k].0 == ch);
        },
    }
    if other != ch {
        assert(k < g.len() ==> g[k].0 == ch);
        assert(forall|j: int| 0 <= j < h.len() ==> (#[trigger] h[j].0 == other <==> (j < g.len()
            && g[j].0 == other)));
        match (slot_of(g, other), slot_of(h, other)) {
            (Some(a), Some(b)) => {
                if a < b {
                    assert(h[a].0 == other);
                }
                if b < a {
                    assert(g[b].0 == other);
                }
            },
            (Some(a), None) => {
                assert(h[a].0 == other);
            },
            (None, Some(b)) => {
                assert(g[b].0 == other);
            },
            (None, None) => {},
        }
    }
}

/// A slot found in a prefix is the slot of the whole sequence.
proof fn lemma_slot_prefix<P, W>(g: Seq<(char, P, W)>, ch: char, m: int)
    requires
        0 < m <= g.len(),
        slot_of(g.subrange(0, m - 1), ch) is None,
        g[m - 1].0 == ch,
    ensures
        slot_of(g, ch) == Some(m - 1),
{
    let p = g.subrange(0, m);
    assert(p.drop_last() =~= g.subrange(0, m - 1));
    lemma_slot(g.subrange(0, m - 1), ch);
    lemma_slot(g, ch);
    lemma_slot(p, ch);
    if slot_of(g, ch) != Some(m - 1) {
        match slot_of(g, ch) {
            Some(i) => {
                if i < m - 1 {
                    assert(g.subrange(0, m - 1)[i].0 == ch);
                }
            },
            None => {},
        }
    }
}

} // verus!
