//! The change-detection poller: samples the clipboard backend, compares
//! against the last observed value, applies active-window blacklist
//! suppression, and emits at most one new entry per detected change.

use vstd::prelude::*;

use crate::active_window::{opt_win_view, ActiveWindowContext, WindowV};
use crate::state::{entry_is_empty, same_content, with_source, ClipboardEntry, EntryV};
use crate::text::{has_sub, lower_of, lowercase, str_contains, trim_spec, trim_str};

verus! {

broadcast use vstd::seq_lib::group_seq_properties;

/// The clipboard capability the poller samples: platform adapters implement
/// it; reads may fail, which the poller treats as "no change this tick".
pub trait ClipboardBackend {
    fn read_entry(&self) -> Option<ClipboardEntry>;

    fn read_active_window(&self) -> Option<ActiveWindowContext> {
        None
    }
}

/// Trim plus lower-case: how both blacklist entries and window fields are
/// normalized before comparison.
pub open spec fn norm(s: Seq<char>) -> Seq<char> {
    lower_of(trim_spec(s))
}

pub open spec fn str_views(l: Seq<String>) -> Seq<Seq<char>> {
    l.map_values(|s: String| s@)
}

/// The blacklist as stored: every entry normalized, blank entries dropped.
pub open spec fn normalize_blacklist_spec(l: Seq<Seq<char>>) -> Seq<Seq<char>> {
    l.map_values(|s: Seq<char>| norm(s)).filter(|s: Seq<char>| s.len() > 0)
}

/// Normalizes configured blacklist entries: trim, lower-case, drop blanks.
pub fn normalized_blacklist(values: Vec<String>) -> (r: Vec<String>)
    ensures
        str_views(r@) == normalize_blacklist_spec(str_views(values@)),
{
    let ghost all = str_views(values@);
    let mut r: Vec<String> = Vec::new();
    let n = values.len();
    let mut i: usize = 0;
    proof {
        assert(all.take(0).map_values(|s: Seq<char>| norm(s)) =~= Seq::<Seq<char>>::empty());
        assert(str_views(r@) =~= normalize_blacklist_spec(all.take(0)));
    }
    while i < n
        invariant
            n == values.len(),
            all == str_views(values@),
            0 <= i <= n,
            str_views(r@) == normalize_blacklist_spec(all.take(i as int)),
        decreases n - i,
    {
        let t = trim_str(values[i].as_str());
        let low = lowercase(t.as_str());
        assert(low@ == norm(all[i as int]));
        let ghost pre = r@;
        let keep = !low.as_str().is_empty();
        if keep {
            r.push(low);
        }
        proof {
            let mapped_i = all.take(i as int).map_values(|s: Seq<char>| norm(s));
            let mapped_i1 = all.take(i + 1).map_values(|s: Seq<char>| norm(s));
            assert(mapped_i1 =~= mapped_i.push(norm(all[i as int])));
            mapped_i.lemma_filter_push(norm(all[i as int]), |s: Seq<char>| s.len() > 0);
            if keep {
                assert(str_views(r@) =~= str_views(pre).push(low@)) by {
                    assert forall|k: int| 0 <= k < r@.len() implies str_views(r@)[k] == str_views(
                        pre,
                    ).push(low@)[k] by {
                        if k < pre.len() {
                            assert(r@[k] == pre[k]);
                        }
                    }
                }
            }
        }
        i = i + 1;
    }
    proof {
        assert(all.take(n as int) =~= all);
    }
    r
}

/// The window's normalized app id equals the blacklist entry (a window
/// without an app id never matches this way).
pub open spec fn app_id_matches(w: WindowV, blocked: Seq<char>) -> bool {
    match w.app_id {
        Some(aid) => norm(aid) == blocked,
        None => false,
    }
}

/// Whether the focused window matches the blacklist: its normalized app id
/// equals an entry, or its normalized title contains an entry.
pub open spec fn window_blacklisted(w: WindowV, bl: Seq<Seq<char>>) -> bool {
    exists|k: int|
        0 <= k < bl.len() && (app_id_matches(w, #[trigger] bl[k]) || has_sub(
            norm(w.title),
            bl[k],
        ))
}

/// Suppression policy: the blacklist is non-empty, a window context was
/// captured, and the window matches.  No context never suppresses.
pub open spec fn skip_spec(w: Option<WindowV>, bl: Seq<Seq<char>>) -> bool {
    bl.len() > 0 && match w {
        Some(win) => window_blacklisted(win, bl),
        None => false,
    }
}

/// Applies the blacklist policy to a captured window context.
#[verifier::loop_isolation(false)]
pub fn should_skip_for_blacklisted_window(
    active_window: Option<&ActiveWindowContext>,
    blacklist: &Vec<String>,
) -> (r: bool)
    ensures
        r == skip_spec(
            match active_window {
                Some(w) => Some(w@),
                None => None,
            },
            str_views(blacklist@),
        ),
{
    let ghost blv = str_views(blacklist@);
    if blacklist.len() == 0 {
        return false;
    }
    let w = match active_window {
        Some(w) => w,
        None => {
            return false;
        },
    };
    let app_id_norm: Option<String> = match &w.app_id {
        Some(aid) => {
            let t = trim_str(aid.as_str());
            Some(lowercase(t.as_str()))
        },
        None => None,
    };
    let title_trim = trim_str(w.title.as_str());
    let title_norm = lowercase(title_trim.as_str());
    let n = blacklist.len();
    let mut k: usize = 0;
    while k < n
        invariant
            0 <= k <= n,
            forall|p: int|
                0 <= p < k ==> !(app_id_matches(w@, #[trigger] blv[p]) || has_sub(
                    norm(w@.title),
                    blv[p],
                )),
        decreases n - k,
    {
        let blocked = &blacklist[k];
        assert(blv[k as int] == blocked@);
        let app_match = match &app_id_norm {
            Some(an) => an.eq(blocked),
            None => false,
        };
        if app_match || str_contains(title_norm.as_str(), blocked.as_str()) {
            assert(app_id_matches(w@, blv[k as int]) || has_sub(norm(w@.title), blv[k as int]));
            return true;
        }
        k = k + 1;
    }
    false
}

/// Poller state: the backend capability, the last value seen on the
/// clipboard, and the normalized blacklist.
pub struct ClipboardPoller<B: ClipboardBackend> {
    backend: B,
    last_seen_value: Option<ClipboardEntry>,
    active_window_blacklist: Vec<String>,
}

pub open spec fn opt_entry_view(o: Option<ClipboardEntry>) -> Option<EntryV> {
    match o {
        Some(e) => Some(e@),
        None => None,
    }
}

/// One sampling step as a pure function: given the previous "last seen"
/// value, the blacklist, and what the backend handed back (clipboard value
/// and focused window), the new "last seen" value and the emitted entry.
pub open spec fn poll_spec(
    last: Option<EntryV>,
    bl: Seq<Seq<char>>,
    read: Option<EntryV>,
    win: Option<WindowV>,
) -> (Option<EntryV>, Option<EntryV>) {
    match read {
        None => (last, None),
        Some(v) => {
            if entry_is_empty(v) {
                (last, None)
            } else if last matches Some(l) && same_content(l, v) {
                (last, None)
            } else if skip_spec(win, bl) {
                (Some(v), None)
            } else {
                (Some(v), Some(with_source(v, win)))
            }
        },
    }
}

/// Per-tick change detection, spelled out: a value content-equal to the
/// last seen one is never re-emitted and leaves the baseline unchanged; a
/// different non-empty value becomes the new baseline and is emitted with
/// the captured window attached, unless the blacklist suppresses it, in
/// which case nothing is emitted but the baseline still moves.
pub proof fn lemma_poll_change_detection(
    last: EntryV,
    bl: Seq<Seq<char>>,
    v: EntryV,
    w: Option<WindowV>,
)
    ensures
        same_content(last, v) ==> poll_spec(Some(last), bl, Some(v), w) == (
            Some(last),
            None::<EntryV>,
        ),
        !entry_is_empty(v) && !same_content(last, v) && !skip_spec(w, bl) ==> poll_spec(
            Some(last),
            bl,
            Some(v),
            w,
        ) == (Some(v), Some(with_source(v, w))),
        !entry_is_empty(v) && !same_content(last, v) && skip_spec(w, bl) ==> poll_spec(
            Some(last),
            bl,
            Some(v),
            w,
        ) == (Some(v), None::<EntryV>),
{
}

impl<B: ClipboardBackend> ClipboardPoller<B> {
    pub closed spec fn last_seen(self) -> Option<EntryV> {
        opt_entry_view(self.last_seen_value)
    }

    pub closed spec fn blacklist(self) -> Seq<Seq<char>> {
        str_views(self.active_window_blacklist@)
    }

    /// A poller that has seen nothing yet, with its blacklist normalized.
    pub fn new(backend: B, active_window_blacklist: Vec<String>) -> (r: Self)
        ensures
            r.last_seen() == None::<EntryV>,
            r.blacklist() == normalize_blacklist_spec(str_views(active_window_blacklist@)),
    {
        ClipboardPoller {
            backend,
            last_seen_value: None,
            active_window_blacklist: normalized_blacklist(active_window_blacklist),
        }
    }

    /// The decision for one tick, taking the backend's readings as
    /// arguments: updates "last seen" and returns the entry to record, if
    /// any, exactly as [`poll_spec`] says.
    pub fn poll_step(
        &mut self,
        read: Option<ClipboardEntry>,
        active_window: Option<ActiveWindowContext>,
    ) -> (result: Option<ClipboardEntry>)
        ensures
            final(self).blacklist() == old(self).blacklist(),
            (final(self).last_seen(), opt_entry_view(result)) == poll_spec(
                old(self).last_seen(),
                old(self).blacklist(),
                opt_entry_view(read),
                opt_win_view(active_window),
            ),
    {
        let value = match read {
            None => {
                return None;
            },
            Some(v) => v,
        };
        if value.is_empty() {
            return None;
        }
        if let Some(last) = &self.last_seen_value {
            if last.content_eq(&value) {
                return None;
            }
        }
        self.emit(value, active_window)
    }

    /// Samples the backend once.  Whatever the backend hands back, the state
    /// change and the result are those of [`poll_spec`] on those readings;
    /// the focused window is only queried once a new value is detected.
    pub fn poll_once(&mut self) -> (result: Option<ClipboardEntry>)
        ensures
            final(self).blacklist() == old(self).blacklist(),
            exists|read: Option<EntryV>, win: Option<WindowV>|
                (final(self).last_seen(), opt_entry_view(result)) == #[trigger] poll_spec(
                    old(self).last_seen(),
                    old(self).blacklist(),
                    read,
                    win,
                ),
    {
        let ghost last0 = self.last_seen();
        let ghost bl0 = self.blacklist();
        let value = match self.backend.read_entry() {
            None => {
                proof {
                    assert((final(self).last_seen(), opt_entry_view(None::<ClipboardEntry>))
                        == poll_spec(last0, bl0, None::<EntryV>, None::<WindowV>));
                }
                return None;
            },
            Some(v) => v,
        };
        let ghost readv = Some(value@);
        if value.is_empty() {
            proof {
                assert((final(self).last_seen(), opt_entry_view(None::<ClipboardEntry>))
                    == poll_spec(last0, bl0, readv, None::<WindowV>));
            }
            return None;
        }
        if let Some(last) = &self.last_seen_value {
            if last.content_eq(&value) {
                proof {
                    assert((final(self).last_seen(), opt_entry_view(None::<ClipboardEntry>))
                        == poll_spec(last0, bl0, readv, None::<WindowV>));
                }
                return None;
            }
        }
        let active_window = self.backend.read_active_window();
        let ghost winv = opt_win_view(active_window);
        let result = self.emit(value, active_window);
        proof {
            assert((final(self).last_seen(), opt_entry_view(result)) == poll_spec(
                last0,
                bl0,
                readv,
                winv,
            ));
        }
        result
    }

    /// A new, non-empty value was detected: it becomes the baseline for
    /// future comparisons even when the blacklist suppresses it.
    fn emit(
        &mut self,
        value: ClipboardEntry,
        active_window: Option<ActiveWindowContext>,
    ) -> (result: Option<ClipboardEntry>)
        requires
            !entry_is_empty(value@),
            !(old(self).last_seen() matches Some(l) && same_content(l, value@)),
        ensures
            final(self).blacklist() == old(self).blacklist(),
            (final(self).last_seen(), opt_entry_view(result)) == poll_spec(
                old(self).last_seen(),
                old(self).blacklist(),
                Some(value@),
                opt_win_view(active_window),
            ),
    {
        self.last_seen_value = Some(value.clone());
        if should_skip_for_blacklisted_window(
            active_window.as_ref(),
            &self.active_window_blacklist,
        ) {
            return None;
        }
        Some(value.with_source_window(active_window))
    }
}

} // verus!
