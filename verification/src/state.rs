//! Clipboard entries and the bounded, deduplicating, order-preserving
//! history store.
//!
//! The store keeps entries most-recent-first, never stores an empty entry,
//! never stores two entries with the same content, and never grows past its
//! configured limit.  Recording an entry whose content is already present
//! moves it to the front, carrying the provenance of the latest occurrence.

use vstd::prelude::*;

use crate::active_window::{opt_win_view, ActiveWindowContext, WindowV};

verus! {

pub const DEFAULT_HISTORY_LIMIT: usize = 50;

/// Mathematical model of a [`ClipboardEntry`].
pub enum EntryV {
    Text { value: Seq<char>, source_window: Option<WindowV> },
    Image {
        width: i32,
        height: i32,
        rowstride: i32,
        has_alpha: bool,
        bits_per_sample: i32,
        channels: i32,
        pixels: Seq<u8>,
        source_window: Option<WindowV>,
    },
}

/// One clipboard capture: either text or an image, tagged with the window
/// that produced it when that is known.
#[derive(Debug, PartialEq, Eq)]
pub enum ClipboardEntry {
    Text { value: String, source_window: Option<ActiveWindowContext> },
    Image {
        width: i32,
        height: i32,
        rowstride: i32,
        has_alpha: bool,
        bits_per_sample: i32,
        channels: i32,
        pixels: Vec<u8>,
        source_window: Option<ActiveWindowContext>,
    },
}

impl View for ClipboardEntry {
    type V = EntryV;

    open spec fn view(&self) -> EntryV {
        match self {
            ClipboardEntry::Text { value, source_window } => EntryV::Text {
                value: value@,
                source_window: opt_win_view(*source_window),
            },
            ClipboardEntry::Image {
                width,
                height,
                rowstride,
                has_alpha,
                bits_per_sample,
                channels,
                pixels,
                source_window,
            } => EntryV::Image {
                width: *width,
                height: *height,
                rowstride: *rowstride,
                has_alpha: *has_alpha,
                bits_per_sample: *bits_per_sample,
                channels: *channels,
                pixels: pixels@,
                source_window: opt_win_view(*source_window),
            },
        }
    }
}

/// An entry is empty when it carries no text and no pixels.  Empty entries
/// are never stored.
pub open spec fn entry_is_empty(e: EntryV) -> bool {
    match e {
        EntryV::Text { value, .. } => value.len() == 0,
        EntryV::Image { pixels, .. } => pixels.len() == 0,
    }
}

/// Content equality: every field but `source_window` must agree.  This is the
/// equality the history uses for de-duplication; provenance never
/// participates.
pub open spec fn same_content(a: EntryV, b: EntryV) -> bool {
    match (a, b) {
        (EntryV::Text { value: va, .. }, EntryV::Text { value: vb, .. }) => va == vb,
        (
            EntryV::Image {
                width: wa,
                height: ha,
                rowstride: ra,
                has_alpha: aa,
                bits_per_sample: ba,
                channels: ca,
                pixels: pa,
                ..
            },
            EntryV::Image {
                width: wb,
                height: hb,
                rowstride: rb,
                has_alpha: ab,
                bits_per_sample: bb,
                channels: cb,
                pixels: pb,
                ..
            },
        ) => wa == wb && ha == hb && ra == rb && aa == ab && ba == bb && ca == cb && pa == pb,
        _ => false,
    }
}

/// The same entry with its provenance replaced.
pub open spec fn with_source(e: EntryV, w: Option<WindowV>) -> EntryV {
    match e {
        EntryV::Text { value, .. } => EntryV::Text { value, source_window: w },
        EntryV::Image {
            width,
            height,
            rowstride,
            has_alpha,
            bits_per_sample,
            channels,
            pixels,
            ..
        } => EntryV::Image {
            width,
            height,
            rowstride,
            has_alpha,
            bits_per_sample,
            channels,
            pixels,
            source_window: w,
        },
    }
}

pub proof fn lemma_same_content_refl(a: EntryV)
    ensures
        same_content(a, a),
{
}

pub proof fn lemma_same_content_sym(a: EntryV, b: EntryV)
    ensures
        same_content(a, b) == same_content(b, a),
{
}

pub proof fn lemma_same_content_trans(a: EntryV, b: EntryV, c: EntryV)
    requires
        same_content(a, c),
        same_content(b, c),
    ensures
        same_content(a, b),
{
}

fn bytes_eq(a: &Vec<u8>, b: &Vec<u8>) -> (r: bool)
    ensures
        r == (a@ == b@),
{
    if a.len() != b.len() {
        assert(a@ != b@) by {
            assert(a@.len() != b@.len());
        }
        return false;
    }
    let n = a.len();
    let mut i: usize = 0;
    while i < n
        invariant
            n == a.len() == b.len(),
            0 <= i <= n,
            forall|k: int| 0 <= k < i ==> a@[k] == b@[k],
        decreases n - i,
    {
        if a[i] != b[i] {
            return false;
        }
        i = i + 1;
    }
    assert(a@ =~= b@);
    true
}

fn copy_bytes(a: &Vec<u8>) -> (r: Vec<u8>)
    ensures
        r@ == a@,
{
    let mut r: Vec<u8> = Vec::new();
    let n = a.len();
    let mut i: usize = 0;
    while i < n
        invariant
            n == a.len(),
            0 <= i <= n,
            r@ == a@.subrange(0, i as int),
        decreases n - i,
    {
        r.push(a[i]);
        assert(r@ =~= a@.subrange(0, i + 1 as int));
        i = i + 1;
    }
    assert(r@ =~= a@);
    r
}

impl ClipboardEntry {
    /// True when the entry carries no text and no pixels.
    pub fn is_empty(&self) -> (r: bool)
        ensures
            r == entry_is_empty(self@),
    {
        match self {
            ClipboardEntry::Text { value, .. } => value.as_str().is_empty(),
            ClipboardEntry::Image { pixels, .. } => pixels.len() == 0,
        }
    }

    /// Replaces the provenance tag, leaving the content untouched.
    pub fn with_source_window(self, source_window: Option<ActiveWindowContext>) -> (r: Self)
        ensures
            r@ == with_source(self@, opt_win_view(source_window)),
    {
        match self {
            ClipboardEntry::Text { value, .. } => ClipboardEntry::Text { value, source_window },
            ClipboardEntry::Image {
                width,
                height,
                rowstride,
                has_alpha,
                bits_per_sample,
                channels,
                pixels,
                ..
            } => ClipboardEntry::Image {
                width,
                height,
                rowstride,
                has_alpha,
                bits_per_sample,
                channels,
                pixels,
                source_window,
            },
        }
    }

    /// Content equality, ignoring `source_window`.
    pub fn content_eq(&self, other: &ClipboardEntry) -> (r: bool)
        ensures
            r == same_content(self@, other@),
    {
        match (self, other) {
            (
                ClipboardEntry::Text { value: va, .. },
                ClipboardEntry::Text { value: vb, .. },
            ) => va.eq(vb),
            (
                ClipboardEntry::Image {
                    width: wa,
                    height: ha,
                    rowstride: ra,
                    has_alpha: aa,
                    bits_per_sample: ba,
                    channels: ca,
                    pixels: pa,
                    ..
                },
                ClipboardEntry::Image {
                    width: wb,
                    height: hb,
                    rowstride: rb,
                    has_alpha: ab,
                    bits_per_sample: bb,
                    channels: cb,
                    pixels: pb,
                    ..
                },
            ) => {
                *wa == *wb && *ha == *hb && *ra == *rb && *aa == *ab && *ba == *bb && *ca == *cb
                    && bytes_eq(pa, pb)
            },
            _ => false,
        }
    }
}

impl Clone for ClipboardEntry {
    /// A clone carries the same model.
    fn clone(&self) -> (r: Self)
        ensures
            r@ == self@,
    {
        match self {
            ClipboardEntry::Text { value, source_window } => ClipboardEntry::Text {
                value: value.clone(),
                source_window: crate::active_window::clone_opt_window(source_window),
            },
            ClipboardEntry::Image {
                width,
                height,
                rowstride,
                has_alpha,
                bits_per_sample,
                channels,
                pixels,
                source_window,
            } => ClipboardEntry::Image {
                width: *width,
                height: *height,
                rowstride: *rowstride,
                has_alpha: *has_alpha,
                bits_per_sample: *bits_per_sample,
                channels: *channels,
                pixels: copy_bytes(pixels),
                source_window: crate::active_window::clone_opt_window(source_window),
            },
        }
    }
}

/// The model of a sequence of entries.
pub open spec fn views(h: Seq<ClipboardEntry>) -> Seq<EntryV> {
    h.map_values(|e: ClipboardEntry| e@)
}

/// Well-formed history: bounded, no empty entry, no two entries with the
/// same content.
pub open spec fn wf_history(h: Seq<EntryV>, limit: nat) -> bool {
    &&& h.len() <= limit
    &&& (forall|i: int| 0 <= i < h.len() ==> !entry_is_empty(#[trigger] h[i]))
    &&& (forall|i: int, j: int|
        0 <= i < j < h.len() ==> !same_content(#[trigger] h[i], #[trigger] h[j]))
}

pub open spec fn has_dup(h: Seq<EntryV>, e: EntryV) -> bool {
    exists|i: int| 0 <= i < h.len() && same_content(#[trigger] h[i], e)
}

pub open spec fn dup_index(h: Seq<EntryV>, e: EntryV) -> int {
    choose|i: int| 0 <= i < h.len() && same_content(#[trigger] h[i], e)
}

/// Whether `record` mutates the store: the entry is non-empty and its content
/// is not already at the front.
pub open spec fn record_changed(h: Seq<EntryV>, e: EntryV) -> bool {
    !entry_is_empty(e) && !(h.len() > 0 && same_content(h[0], e))
}

/// The history after recording `e`: unchanged on a rejection; the existing
/// occurrence moved to the front (as `e`, with `e`'s provenance) on a
/// duplicate; otherwise `e` in front with the oldest entries evicted past
/// `limit`.
pub open spec fn record_result(h: Seq<EntryV>, limit: nat, e: EntryV) -> Seq<EntryV> {
    if !record_changed(h, e) {
        h
    } else if has_dup(h, e) {
        let i = dup_index(h, e);
        seq![e] + h.subrange(0, i) + h.subrange(i + 1, h.len() as int)
    } else {
        (seq![e] + h).take(if h.len() + 1 <= limit {
            h.len() + 1
        } else {
            limit
        } as int)
    }
}

/// In a well-formed history the duplicate of `e`, if any, sits at exactly one
/// index.
pub proof fn lemma_dup_index_unique(h: Seq<EntryV>, limit: nat, e: EntryV, i: int)
    requires
        wf_history(h, limit),
        0 <= i < h.len(),
        same_content(h[i], e),
    ensures
        has_dup(h, e),
        dup_index(h, e) == i,
{
    assert(has_dup(h, e));
    let j = dup_index(h, e);
    if i != j {
        lemma_same_content_trans(h[i], h[j], e);
        lemma_same_content_sym(h[i], h[j]);
        assert(false);
    }
}

/// Recording never grows a well-formed history past its limit, and keeps it
/// well-formed: entries stay non-empty and contents stay pairwise distinct.
pub proof fn lemma_record_preserves_wf(h: Seq<EntryV>, limit: nat, e: EntryV)
    requires
        wf_history(h, limit),
    ensures
        record_result(h, limit, e).len() <= limit,
        wf_history(record_result(h, limit, e), limit),
{
    let r = record_result(h, limit, e);
    if !record_changed(h, e) {
    } else if has_dup(h, e) {
        let i = dup_index(h, e);
        assert(0 <= i < h.len() && same_content(h[i], e));
        assert(r.len() == h.len());
        assert forall|p: int| 0 <= p < r.len() implies !entry_is_empty(#[trigger] r[p]) by {
            if p == 0 {
                assert(r[p] == e);
            } else if p <= i {
                assert(r[p] == h[p - 1]);
            } else {
                assert(r[p] == h[p]);
            }
        }
        assert forall|p: int, q: int| 0 <= p < q < r.len() implies !same_content(
            #[trigger] r[p],
            #[trigger] r[q],
        ) by {
            let hp = if p == 0 {
                e
            } else if p <= i {
                h[p - 1]
            } else {
                h[p]
            };
            let hq = if q <= i {
                h[q - 1]
            } else {
                h[q]
            };
            assert(r[p] == hp && r[q] == hq);
            if p == 0 {
                // hq is some h[k] with k != i; if it matched e it would match h[i].
                let k = if q <= i {
                    q - 1
                } else {
                    q
                };
                assert(hq == h[k] && k != i);
                if same_content(e, hq) {
                    lemma_same_content_sym(e, hq);
                    lemma_same_content_trans(h[k], h[i], e);
                    if k < i {
                        assert(false);
                    } else {
                        lemma_same_content_sym(h[k], h[i]);
                        assert(false);
                    }
                }
            }
        }
    } else {
        let pushed = seq![e] + h;
        assert forall|p: int| 0 <= p < r.len() implies !entry_is_empty(#[trigger] r[p]) by {
            assert(r[p] == pushed[p]);
            if p > 0 {
                assert(pushed[p] == h[p - 1]);
            }
        }
        assert forall|p: int, q: int| 0 <= p < q < r.len() implies !same_content(
            #[trigger] r[p],
            #[trigger] r[q],
        ) by {
            assert(r[p] == pushed[p] && r[q] == pushed[q]);
            if p == 0 {
                assert(pushed[q] == h[q - 1]);
                if same_content(e, h[q - 1]) {
                    lemma_same_content_sym(e, h[q - 1]);
                    assert(has_dup(h, e));
                    assert(false);
                }
            } else {
                assert(pushed[p] == h[p - 1] && pushed[q] == h[q - 1]);
            }
        }
    }
}

/// Recording an empty entry never changes the history and never counts as
/// a change, whatever the store holds.
pub proof fn lemma_record_empty_rejected(h: Seq<EntryV>, limit: nat, e: EntryV)
    requires
        entry_is_empty(e),
    ensures
        !record_changed(h, e),
        record_result(h, limit, e) == h,
{
}

/// Recording the same entry twice in a row changes the store only on the
/// first call: afterwards the content sits at the front, so the second call
/// reports no change and leaves the history exactly as it was.
pub proof fn lemma_record_idempotent(h: Seq<EntryV>, limit: nat, e: EntryV)
    requires
        wf_history(h, limit),
        limit >= 1,
    ensures
        !record_changed(record_result(h, limit, e), e),
        record_result(record_result(h, limit, e), limit, e) == record_result(h, limit, e),
{
    let h1 = record_result(h, limit, e);
    if entry_is_empty(e) {
    } else if h.len() > 0 && same_content(h[0], e) {
    } else if has_dup(h, e) {
        assert(h1[0] == e);
        lemma_same_content_refl(e);
    } else {
        assert(h1[0] == (seq![e] + h)[0]);
        lemma_same_content_refl(e);
    }
}

/// Recording A, then B, then A again into an empty store yields `[A, B]`:
/// the second A moves the existing content to the front instead of adding a
/// third entry.
pub proof fn lemma_record_moves_to_front(a: EntryV, b: EntryV, limit: nat)
    requires
        !entry_is_empty(a),
        !entry_is_empty(b),
        !same_content(a, b),
        limit >= 2,
    ensures
        ({
            let h1 = record_result(Seq::<EntryV>::empty(), limit, a);
            let h2 = record_result(h1, limit, b);
            let h3 = record_result(h2, limit, a);
            h3 == seq![a, b] && h3.len() == 2
        }),
{
    let h0 = Seq::<EntryV>::empty();
    let h1 = record_result(h0, limit, a);
    assert(!has_dup(h0, a));
    assert(h1 =~= seq![a]);
    let h2 = record_result(h1, limit, b);
    assert(!has_dup(h1, b)) by {
        assert forall|i: int| 0 <= i < h1.len() implies !same_content(#[trigger] h1[i], b) by {
            assert(h1[i] == a);
        }
    }
    assert(record_changed(h1, b));
    assert(h2 =~= seq![b, a]) by {
        assert(h2 == (seq![b] + h1).take(2));
    }
    let h3 = record_result(h2, limit, a);
    lemma_same_content_sym(a, b);
    assert(record_changed(h2, a));
    assert(has_dup(h2, a)) by {
        lemma_same_content_refl(a);
        assert(same_content(h2[1], a));
    }
    let i = dup_index(h2, a);
    assert(0 <= i < 2 && same_content(h2[i], a));
    assert(i == 1) by {
        if i == 0 {
            assert(same_content(b, a));
        }
    }
    assert(h3 =~= seq![a, b]) by {
        assert(h3 == seq![a] + h2.subrange(0, 1) + h2.subrange(2, 2));
        assert(h2.subrange(0, 1)[0] == b);
    }
}

/// The kept part of a decoded history: in order, dropping empty entries and
/// every entry whose content already appeared earlier.
pub open spec fn sanitize(s: Seq<EntryV>) -> Seq<EntryV>
    decreases s.len(),
{
    if s.len() == 0 {
        Seq::empty()
    } else {
        let prev = sanitize(s.drop_last());
        let e = s.last();
        if entry_is_empty(e) || has_dup(prev, e) {
            prev
        } else {
            prev.push(e)
        }
    }
}

/// What a store constructed from a decoded sequence holds: the sanitized
/// sequence, truncated to the limit (oldest dropped).
pub open spec fn load_result(s: Seq<EntryV>, limit: nat) -> Seq<EntryV> {
    let d = sanitize(s);
    d.take(if d.len() <= limit {
        d.len()
    } else {
        limit
    } as int)
}

proof fn lemma_sanitize_wf(s: Seq<EntryV>)
    ensures
        sanitize(s).len() <= s.len(),
        wf_history(sanitize(s), s.len() as nat),
    decreases s.len(),
{
    if s.len() == 0 {
    } else {
        lemma_sanitize_wf(s.drop_last());
        let prev = sanitize(s.drop_last());
        let e = s.last();
        if entry_is_empty(e) || has_dup(prev, e) {
        } else {
            let r = prev.push(e);
            assert forall|i: int, j: int| 0 <= i < j < r.len() implies !same_content(
                #[trigger] r[i],
                #[trigger] r[j],
            ) by {
                if j == r.len() - 1 {
                    assert(r[j] == e);
                    assert(r[i] == prev[i]);
                    if same_content(prev[i], e) {
                        assert(has_dup(prev, e));
                    }
                }
            }
        }
    }
}

/// Truncating to the limit keeps the history well-formed.
pub proof fn lemma_load_result_wf(s: Seq<EntryV>, limit: nat)
    ensures
        wf_history(load_result(s, limit), limit),
{
    lemma_sanitize_wf(s);
    let d = sanitize(s);
    let r = load_result(s, limit);
    assert(forall|i: int| 0 <= i < r.len() ==> r[i] == d[i]);
}

/// A sequence that is already well-formed loads back exactly as it is: the
/// sanitizing pass and the truncation leave it untouched.
pub proof fn lemma_load_result_identity(s: Seq<EntryV>, limit: nat)
    requires
        wf_history(s, limit),
    ensures
        load_result(s, limit) == s,
    decreases s.len(),
{
    if s.len() == 0 {
        assert(sanitize(s) == Seq::<EntryV>::empty());
        assert(load_result(s, limit) =~= s);
    } else {
        let front = s.drop_last();
        assert(wf_history(front, limit)) by {
            assert(forall|i: int| 0 <= i < front.len() ==> front[i] == s[i]);
        }
        lemma_load_result_identity(front, limit);
        assert(sanitize(front) == front) by {
            lemma_sanitize_wf(front);
            let d = sanitize(front);
            assert(load_result(front, limit) == d.take(d.len() as int));
            assert(d.take(d.len() as int) =~= d);
        }
        let e = s.last();
        assert(!entry_is_empty(e));
        assert(!has_dup(front, e)) by {
            assert forall|i: int| 0 <= i < front.len() implies !same_content(
                #[trigger] front[i],
                e,
            ) by {
                assert(front[i] == s[i] && e == s[s.len() - 1]);
            }
        }
        assert(sanitize(s) == front.push(e));
        assert(front.push(e) =~= s);
        let d = sanitize(s);
        assert(load_result(s, limit) == d.take(d.len() as int));
        assert(d.take(d.len() as int) =~= d);
    }
}

/// The index of the entry in `list` sharing `value`'s content, if any.
fn find_content_in(list: &Vec<ClipboardEntry>, value: &ClipboardEntry) -> (r: Option<usize>)
    ensures
        match r {
            Some(i) => 0 <= i < list@.len() && same_content(views(list@)[i as int], value@),
            None => !has_dup(views(list@), value@),
        },
{
    let n = list.len();
    let mut i: usize = 0;
    while i < n
        invariant
            n == list.len(),
            0 <= i <= n,
            forall|k: int| 0 <= k < i ==> !same_content(views(list@)[k], value@),
        decreases n - i,
    {
        if list[i].content_eq(value) {
            assert(views(list@)[i as int] == list@[i as int]@);
            return Some(i);
        }
        i = i + 1;
    }
    None
}

/// The in-memory history store: an ordered, bounded, deduplicating sequence
/// of entries, most-recent-first.
pub struct ClipboardState {
    history: Vec<ClipboardEntry>,
    history_limit: usize,
}

impl View for ClipboardState {
    type V = Seq<EntryV>;

    closed spec fn view(&self) -> Seq<EntryV> {
        views(self.history@)
    }
}

impl ClipboardState {
    pub closed spec fn limit(self) -> nat {
        self.history_limit as nat
    }

    pub open spec fn wf(self) -> bool {
        wf_history(self@, self.limit())
    }

    /// An empty store with the given capacity.
    pub fn new(history_limit: usize) -> (r: Self)
        ensures
            r@ == Seq::<EntryV>::empty(),
            r.limit() == history_limit as nat,
            r.wf(),
    {
        let r = ClipboardState { history: Vec::new(), history_limit };
        proof {
            assert(r@ =~= Seq::<EntryV>::empty());
        }
        r
    }

    /// A store filled from a decoded history: empty entries and repeated
    /// contents are dropped (first occurrence kept), then the sequence is
    /// truncated to the limit, oldest first out.
    pub fn from_entries(history_limit: usize, entries: &Vec<ClipboardEntry>) -> (r: Self)
        ensures
            r.limit() == history_limit as nat,
            r@ == load_result(views(entries@), history_limit as nat),
            r.wf(),
    {
        let ghost all = views(entries@);
        let mut acc: Vec<ClipboardEntry> = Vec::new();
        let n = entries.len();
        let mut i: usize = 0;
        proof {
            assert(views(acc@) =~= sanitize(all.take(0)));
        }
        while i < n
            invariant
                n == entries.len(),
                all == views(entries@),
                0 <= i <= n,
                views(acc@) == sanitize(all.take(i as int)),
            decreases n - i,
        {
            proof {
                assert(all.take(i + 1).drop_last() =~= all.take(i as int));
                assert(all.take(i + 1).last() == all[i as int]);
                assert(all[i as int] == entries@[i as int]@);
            }
            let e = &entries[i];
            if !e.is_empty() {
                if find_content_in(&acc, e).is_none() {
                    let ghost pre = acc@;
                    acc.push(e.clone());
                    proof {
                        assert(views(acc@) =~= views(pre).push(e@)) by {
                            assert(views(pre).len() == pre.len());
                            assert forall|k: int|
                                0 <= k < acc@.len() implies views(acc@)[k] == views(pre).push(
                                e@,
                            )[k] by {
                                if k < pre.len() {
                                    assert(acc@[k] == pre[k]);
                                }
                            }
                        }
                    }
                }
            }
            i = i + 1;
        }
        proof {
            assert(all.take(n as int) =~= all);
        }
        let ghost kept = acc@;
        while acc.len() > history_limit
            invariant
                acc@.len() <= kept.len(),
                acc@ == kept.take(acc@.len() as int),
                acc@.len() >= history_limit || acc@.len() == kept.len(),
            decreases acc@.len(),
        {
            proof {
                assert(kept.take(acc@.len() as int).take(acc@.len() - 1) =~= kept.take(
                    acc@.len() - 1,
                ));
            }
            acc.pop();
        }
        let r = ClipboardState { history: acc, history_limit };
        proof {
            let k = r.history@.len() as int;
            assert(views(r.history@) =~= views(kept).take(k)) by {
                assert(views(kept).len() == kept.len());
                assert forall|p: int| 0 <= p < k implies views(r.history@)[p] == views(kept)[p] by {
                    assert(r.history@[p] == kept[p]);
                }
            }
            assert(views(kept).take(k) == load_result(all, history_limit as nat));
            lemma_load_result_wf(all, history_limit as nat);
        }
        r
    }

    /// The index of the entry sharing `value`'s content, if any.
    fn find_content_index(&self, value: &ClipboardEntry) -> (r: Option<usize>)
        ensures
            match r {
                Some(i) => 0 <= i < self@.len() && same_content(self@[i as int], value@),
                None => !has_dup(self@, value@),
            },
    {
        find_content_in(&self.history, value)
    }

    /// A disconnected copy of the history, most-recent-first.
    pub fn history_snapshot(&self) -> (r: Vec<ClipboardEntry>)
        ensures
            views(r@) == self@,
    {
        let n = self.history.len();
        let mut r: Vec<ClipboardEntry> = Vec::new();
        let mut i: usize = 0;
        while i < n
            invariant
                n == self.history.len(),
                0 <= i <= n,
                views(r@) == views(self.history@).subrange(0, i as int),
            decreases n - i,
        {
            let c = self.history[i].clone();
            assert(c@ == self.history@[i as int]@);
            let ghost pre = r@;
            r.push(c);
            proof {
                assert(views(pre).len() == i);
                assert(pre.len() == i);
                assert(r@ == pre.push(c));
                assert forall|k: int| 0 <= k < i + 1 implies views(r@)[k] == views(
                    self.history@,
                ).subrange(0, i + 1)[k] by {
                    if k < i {
                        assert(r@[k] == pre[k]);
                        assert(views(pre)[k] == pre[k]@);
                    } else {
                        assert(r@[k] == c);
                    }
                }
                assert(views(r@) =~= views(self.history@).subrange(0, i + 1));
            }
            i = i + 1;
        }
        assert(views(r@) =~= views(self.history@));
        r
    }

    /// Records an entry: rejects empty entries and entries already at the
    /// front; moves a duplicate's content to the front; evicts the oldest
    /// entries past the limit.  Returns whether the store changed.
    pub fn record_entry(&mut self, value: ClipboardEntry) -> (changed: bool)
        requires
            old(self).wf(),
        ensures
            final(self).limit() == old(self).limit(),
            final(self)@ == record_result(old(self)@, old(self).limit(), value@),
            changed == record_changed(old(self)@, value@),
            final(self).wf(),
    {
        let ghost h0 = self@;
        let ghost ev = value@;
        proof {
            lemma_record_preserves_wf(h0, self.limit(), ev);
        }
        if value.is_empty() {
            return false;
        }
        if let Some(i) = self.find_content_index(&value) {
            if i == 0 {
                return false;
            }
            proof {
                lemma_dup_index_unique(h0, self.limit(), ev, i as int);
            }
            self.history.remove(i);
            self.history.insert(0, value);
            proof {
                assert(self@ =~= seq![ev] + h0.subrange(0, i as int) + h0.subrange(
                    i + 1,
                    h0.len() as int,
                ));
            }
            return true;
        }
        self.history.insert(0, value);
        let ghost pushed = self.history@;
        proof {
            assert(views(pushed) =~= seq![ev] + h0);
        }
        while self.history.len() > self.history_limit
            invariant
                self.history_limit == old(self).history_limit,
                self.history@.len() <= pushed.len(),
                self.history@ == pushed.take(self.history@.len() as int),
                self.history@.len() >= self.history_limit
                    || self.history@.len() == pushed.len(),
            decreases self.history@.len(),
        {
            proof {
                assert(pushed.take(self.history@.len() as int).take(
                    self.history@.len() - 1,
                ) =~= pushed.take(self.history@.len() - 1));
            }
            self.history.pop();
        }
        proof {
            let k = self.history@.len() as int;
            assert(self@ =~= views(pushed).take(k));
            assert(views(pushed).take(k) =~= (seq![ev] + h0).take(k));
        }
        true
    }

    /// Empties the store.
    pub fn clear_history(&mut self)
        ensures
            final(self).limit() == old(self).limit(),
            final(self)@ == Seq::<EntryV>::empty(),
            final(self).wf(),
    {
        self.history.clear();
        proof {
            assert(self@ =~= Seq::<EntryV>::empty());
        }
    }
}

} // verus!
