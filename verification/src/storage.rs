//! The persistence codec: the history as a single JSON document, shape
//! `{"history": [entry...]}` with a `kind` discriminator per entry, plus the
//! backward-compatible read of the older plain-string shape
//! `{"history": ["..."]}`.

use vstd::prelude::*;

use crate::active_window::{ActiveWindowContext, WindowV};
use crate::json::{
    jlookup, json_get, jview, jview_fields, jview_seq, lemma_jview_fields_props,
    lemma_jview_seq_props, lemma_obj_lookup_at, lemma_parse_print, lemma_printable_fields_all,
    lemma_printable_seq_all, obj_lookup, parse_json, print_json, printable, sp_parse_json, Json,
    JsonV,
};
use crate::state::{views, ClipboardEntry, EntryV};
use crate::text::{chars_of, string_from_chars};

verus! {

pub open spec fn opt_str_json(o: Option<Seq<char>>) -> JsonV {
    match o {
        Some(s) => JsonV::Str(s),
        None => JsonV::Null,
    }
}

pub open spec fn opt_int_json(o: Option<i64>) -> JsonV {
    match o {
        Some(i) => JsonV::Int(i),
        None => JsonV::Null,
    }
}

pub open spec fn opt_bool_json(o: Option<bool>) -> JsonV {
    match o {
        Some(b) => JsonV::Bool(b),
        None => JsonV::Null,
    }
}

/// A window context as the codec writes it: every field present, absent
/// options as `null`.
pub open spec fn json_of_window(w: WindowV) -> JsonV {
    JsonV::Obj(
        seq![
            ("backend"@, JsonV::Str(w.backend)),
            ("title"@, JsonV::Str(w.title)),
            ("app_id"@, opt_str_json(w.app_id)),
            ("initial_app_id"@, opt_str_json(w.initial_app_id)),
            ("initial_title"@, opt_str_json(w.initial_title)),
            ("window_id"@, opt_str_json(w.window_id)),
            ("pid"@, opt_int_json(w.pid)),
            ("workspace_id"@, opt_int_json(w.workspace_id)),
            ("workspace_name"@, opt_str_json(w.workspace_name)),
            ("is_xwayland"@, opt_bool_json(w.is_xwayland)),
        ],
    )
}

pub open spec fn opt_window_json(o: Option<WindowV>) -> JsonV {
    match o {
        Some(w) => json_of_window(w),
        None => JsonV::Null,
    }
}

pub open spec fn pixels_json(pixels: Seq<u8>) -> Seq<JsonV> {
    pixels.map_values(|b: u8| JsonV::Int(b as i64))
}

/// An entry as the codec writes it: the `kind` tag first, then the
/// variant's fields in order.
pub open spec fn json_of_entry(e: EntryV) -> JsonV {
    match e {
        EntryV::Text { value, source_window } => JsonV::Obj(
            seq![
                ("kind"@, JsonV::Str("text"@)),
                ("value"@, JsonV::Str(value)),
                ("source_window"@, opt_window_json(source_window)),
            ],
        ),
        EntryV::Image {
            width,
            height,
            rowstride,
            has_alpha,
            bits_per_sample,
            channels,
            pixels,
            source_window,
        } => JsonV::Obj(
            seq![
                ("kind"@, JsonV::Str("image"@)),
                ("width"@, JsonV::Int(width as i64)),
                ("height"@, JsonV::Int(height as i64)),
                ("rowstride"@, JsonV::Int(rowstride as i64)),
                ("has_alpha"@, JsonV::Bool(has_alpha)),
                ("bits_per_sample"@, JsonV::Int(bits_per_sample as i64)),
                ("channels"@, JsonV::Int(channels as i64)),
                ("pixels"@, JsonV::Arr(pixels_json(pixels))),
                ("source_window"@, opt_window_json(source_window)),
            ],
        ),
    }
}

/// The whole document: one object holding the ordered entry list.
pub open spec fn json_of_history(h: Seq<EntryV>) -> JsonV {
    JsonV::Obj(seq![("history"@, JsonV::Arr(h.map_values(|e: EntryV| json_of_entry(e))))])
}

fn key(name: &str) -> (r: Vec<char>)
    ensures
        r@ == name@,
{
    chars_of(name)
}

fn opt_string_to_json(o: &Option<String>) -> (r: Json)
    ensures
        jview(r) == opt_str_json(crate::active_window::opt_str_view(*o)),
{
    match o {
        Some(s) => Json::Str(chars_of(s.as_str())),
        None => Json::Null,
    }
}

fn opt_i64_to_json(o: &Option<i64>) -> (r: Json)
    ensures
        jview(r) == opt_int_json(*o),
{
    match o {
        Some(i) => Json::Int(*i),
        None => Json::Null,
    }
}

fn opt_bool_to_json(o: &Option<bool>) -> (r: Json)
    ensures
        jview(r) == opt_bool_json(*o),
{
    match o {
        Some(b) => Json::Bool(*b),
        None => Json::Null,
    }
}

fn window_to_json(w: &ActiveWindowContext) -> (r: Json)
    ensures
        jview(r) == json_of_window(w@),
{
    let mut fields: Vec<(Vec<char>, Json)> = Vec::new();
    fields.push((key("backend"), Json::Str(chars_of(w.backend.as_str()))));
    fields.push((key("title"), Json::Str(chars_of(w.title.as_str()))));
    fields.push((key("app_id"), opt_string_to_json(&w.app_id)));
    fields.push((key("initial_app_id"), opt_string_to_json(&w.initial_app_id)));
    fields.push((key("initial_title"), opt_string_to_json(&w.initial_title)));
    fields.push((key("window_id"), opt_string_to_json(&w.window_id)));
    fields.push((key("pid"), opt_i64_to_json(&w.pid)));
    fields.push((key("workspace_id"), opt_i64_to_json(&w.workspace_id)));
    fields.push((key("workspace_name"), opt_string_to_json(&w.workspace_name)));
    fields.push((key("is_xwayland"), opt_bool_to_json(&w.is_xwayland)));
    let r = Json::Obj(fields);
    proof {
        lemma_jview_fields_props(fields@);
        let fs = jview_fields(fields@);
        let es = json_of_window(w@)->Obj_0;
        assert(fields@.len() == 10);
        assert(fs[0] == ((fields@[0]).0@, jview(fields@[0].1)));
        assert(fs[1] == ((fields@[1]).0@, jview(fields@[1].1)));
        assert(fs[2] == ((fields@[2]).0@, jview(fields@[2].1)));
        assert(fs[3] == ((fields@[3]).0@, jview(fields@[3].1)));
        assert(fs[4] == ((fields@[4]).0@, jview(fields@[4].1)));
        assert(fs[5] == ((fields@[5]).0@, jview(fields@[5].1)));
        assert(fs[6] == ((fields@[6]).0@, jview(fields@[6].1)));
        assert(fs[7] == ((fields@[7]).0@, jview(fields@[7].1)));
        assert(fs[8] == ((fields@[8]).0@, jview(fields@[8].1)));
        assert(fs[9] == ((fields@[9]).0@, jview(fields@[9].1)));
        assert(fs =~= es);
    }
    r
}

fn opt_window_to_json(o: &Option<ActiveWindowContext>) -> (r: Json)
    ensures
        jview(r) == opt_window_json(crate::active_window::opt_win_view(*o)),
{
    match o {
        Some(w) => window_to_json(w),
        None => Json::Null,
    }
}

fn pixels_to_json(pixels: &Vec<u8>) -> (r: Vec<Json>)
    ensures
        jview_seq(r@) == pixels_json(pixels@),
{
    let n = pixels.len();
    let mut r: Vec<Json> = Vec::new();
    let mut i: usize = 0;
    proof {
        lemma_jview_seq_props(r@);
        assert(jview_seq(r@) =~= pixels_json(pixels@.take(0)));
    }
    while i < n
        invariant
            n == pixels.len(),
            0 <= i <= n,
            r@.len() == i,
            jview_seq(r@) == pixels_json(pixels@.take(i as int)),
        decreases n - i,
    {
        let ghost pre = r@;
        r.push(Json::Int(pixels[i] as i64));
        proof {
            lemma_jview_seq_props(r@);
            lemma_jview_seq_props(pre);
            assert forall|k: int| 0 <= k < i + 1 implies jview_seq(r@)[k] == pixels_json(
                pixels@.take(i + 1),
            )[k] by {
                assert(jview_seq(r@)[k] == jview(r@[k]));
                if k < i {
                    assert(r@[k] == pre[k]);
                    assert(jview_seq(pre)[k] == jview(pre[k]));
                }
            }
            assert(jview_seq(r@) =~= pixels_json(pixels@.take(i + 1)));
        }
        i = i + 1;
    }
    proof {
        assert(pixels@.take(n as int) =~= pixels@);
    }
    r
}

/// One entry as its JSON object.
pub fn entry_to_json(e: &ClipboardEntry) -> (r: Json)
    ensures
        jview(r) == json_of_entry(e@),
{
    match e {
        ClipboardEntry::Text { value, source_window } => {
            let mut fields: Vec<(Vec<char>, Json)> = Vec::new();
            fields.push((key("kind"), Json::Str(chars_of("text"))));
            fields.push((key("value"), Json::Str(chars_of(value.as_str()))));
            fields.push((key("source_window"), opt_window_to_json(source_window)));
            let r = Json::Obj(fields);
            proof {
                lemma_jview_fields_props(fields@);
                let fs = jview_fields(fields@);
                let es = json_of_entry(e@)->Obj_0;
                assert(fields@.len() == 3);
                assert(fs[0] == ((fields@[0]).0@, jview(fields@[0].1)));
                assert(fs[1] == ((fields@[1]).0@, jview(fields@[1].1)));
                assert(fs[2] == ((fields@[2]).0@, jview(fields@[2].1)));
                assert(fs =~= es);
            }
            r
        },
        ClipboardEntry::Image {
            width,
            height,
            rowstride,
            has_alpha,
            bits_per_sample,
            channels,
            pixels,
            source_window,
        } => {
            let mut fields: Vec<(Vec<char>, Json)> = Vec::new();
            fields.push((key("kind"), Json::Str(chars_of("image"))));
            fields.push((key("width"), Json::Int(*width as i64)));
            fields.push((key("height"), Json::Int(*height as i64)));
            fields.push((key("rowstride"), Json::Int(*rowstride as i64)));
            fields.push((key("has_alpha"), Json::Bool(*has_alpha)));
            fields.push((key("bits_per_sample"), Json::Int(*bits_per_sample as i64)));
            fields.push((key("channels"), Json::Int(*channels as i64)));
            fields.push((key("pixels"), Json::Arr(pixels_to_json(pixels))));
            fields.push((key("source_window"), opt_window_to_json(source_window)));
            let r = Json::Obj(fields);
            proof {
                lemma_jview_fields_props(fields@);
                let fs = jview_fields(fields@);
                let es = json_of_entry(e@)->Obj_0;
                assert(fields@.len() == 9);
                assert(fs[0] == ((fields@[0]).0@, jview(fields@[0].1)));
                assert(fs[1] == ((fields@[1]).0@, jview(fields@[1].1)));
                assert(fs[2] == ((fields@[2]).0@, jview(fields@[2].1)));
                assert(fs[3] == ((fields@[3]).0@, jview(fields@[3].1)));
                assert(fs[4] == ((fields@[4]).0@, jview(fields@[4].1)));
                assert(fs[5] == ((fields@[5]).0@, jview(fields@[5].1)));
                assert(fs[6] == ((fields@[6]).0@, jview(fields@[6].1)));
                assert(fs[7] == ((fields@[7]).0@, jview(fields@[7].1)));
                assert(fs[8] == ((fields@[8]).0@, jview(fields@[8].1)));
                assert(fs =~= es);
            }
            r
        },
    }
}

/// The history serialized: the exact characters of the stable JSON shape.
pub fn encode_history(entries: &Vec<ClipboardEntry>) -> (r: String)
    ensures
        r@ == print_json(json_of_history(views(entries@))),
{
    let n = entries.len();
    let mut items: Vec<Json> = Vec::new();
    let mut i: usize = 0;
    proof {
        lemma_jview_seq_props(items@);
        assert(jview_seq(items@) =~= views(entries@).take(0).map_values(
            |e: EntryV| json_of_entry(e),
        ));
    }
    while i < n
        invariant
            n == entries.len(),
            0 <= i <= n,
            items@.len() == i,
            jview_seq(items@) == views(entries@).take(i as int).map_values(
                |e: EntryV| json_of_entry(e),
            ),
        decreases n - i,
    {
        let j = entry_to_json(&entries[i]);
        let ghost pre = items@;
        items.push(j);
        proof {
            lemma_jview_seq_props(items@);
            lemma_jview_seq_props(pre);
            assert forall|k: int| 0 <= k < i + 1 implies jview_seq(items@)[k] == views(
                entries@,
            ).take(i + 1).map_values(|e: EntryV| json_of_entry(e))[k] by {
                assert(jview_seq(items@)[k] == jview(items@[k]));
                if k < i {
                    assert(items@[k] == pre[k]);
                    assert(jview_seq(pre)[k] == jview(pre[k]));
                    assert(views(entries@).take(i as int).map_values(
                        |e: EntryV| json_of_entry(e),
                    )[k] == json_of_entry(views(entries@)[k]));
                } else {
                    assert(views(entries@)[k] == entries@[k]@);
                }
            }
            assert(jview_seq(items@) =~= views(entries@).take(i + 1).map_values(
                |e: EntryV| json_of_entry(e),
            ));
        }
        i = i + 1;
    }
    let ghost items_view = jview_seq(items@);
    let mut fields: Vec<(Vec<char>, Json)> = Vec::new();
    fields.push((key("history"), Json::Arr(items)));
    let doc = Json::Obj(fields);
    proof {
        lemma_jview_fields_props(fields@);
        assert(views(entries@).take(n as int) =~= views(entries@));
        let fs = jview_fields(fields@);
        let es = json_of_history(views(entries@))->Obj_0;
        assert(fs[0] == ((fields@[0]).0@, jview(fields@[0].1)));
        assert(views(entries@).take(n as int).map_values(|e: EntryV| json_of_entry(e)) =~= views(
            entries@,
        ).map_values(|e: EntryV| json_of_entry(e)));
        assert(fs =~= es);
    }
    let printed = doc.print();
    string_from_chars(&printed)
}


/// A required string member: anything else refuses the document.
pub open spec fn jstr_field(v: JsonV, key: Seq<char>) -> Option<Seq<char>> {
    match jlookup(v, key) {
        Some(JsonV::Str(s)) => Some(s),
        _ => None,
    }
}

/// An optional string member: absent or `null` reads as absent, a string as
/// present, anything else refuses the document.
pub open spec fn jopt_str_field(v: JsonV, key: Seq<char>) -> Option<Option<Seq<char>>> {
    match jlookup(v, key) {
        None => Some(None),
        Some(JsonV::Null) => Some(None),
        Some(JsonV::Str(s)) => Some(Some(s)),
        Some(_) => None,
    }
}

pub open spec fn jopt_int_field(v: JsonV, key: Seq<char>) -> Option<Option<i64>> {
    match jlookup(v, key) {
        None => Some(None),
        Some(JsonV::Null) => Some(None),
        Some(JsonV::Int(i)) => Some(Some(i)),
        Some(_) => None,
    }
}

pub open spec fn jopt_bool_field(v: JsonV, key: Seq<char>) -> Option<Option<bool>> {
    match jlookup(v, key) {
        None => Some(None),
        Some(JsonV::Null) => Some(None),
        Some(JsonV::Bool(b)) => Some(Some(b)),
        Some(_) => None,
    }
}

/// A required integer member that must fit in `i32`.
pub open spec fn ji32_field(v: JsonV, key: Seq<char>) -> Option<i32> {
    match jlookup(v, key) {
        Some(JsonV::Int(i)) => if i32::MIN <= i <= i32::MAX {
            Some(i as i32)
        } else {
            None
        },
        _ => None,
    }
}

pub open spec fn jbool_field(v: JsonV, key: Seq<char>) -> Option<bool> {
    match jlookup(v, key) {
        Some(JsonV::Bool(b)) => Some(b),
        _ => None,
    }
}

/// A window context read back: `backend` and `title` must be strings, every
/// other member is optional, and a wrongly-typed member refuses the
/// document.
pub open spec fn window_of_json(v: JsonV) -> Option<WindowV> {
    if !(v matches JsonV::Obj(_)) {
        None
    } else {
        let backend = jstr_field(v, "backend"@);
        let title = jstr_field(v, "title"@);
        let app_id = jopt_str_field(v, "app_id"@);
        let initial_app_id = jopt_str_field(v, "initial_app_id"@);
        let initial_title = jopt_str_field(v, "initial_title"@);
        let window_id = jopt_str_field(v, "window_id"@);
        let pid = jopt_int_field(v, "pid"@);
        let workspace_id = jopt_int_field(v, "workspace_id"@);
        let workspace_name = jopt_str_field(v, "workspace_name"@);
        let is_xwayland = jopt_bool_field(v, "is_xwayland"@);
        if backend is Some && title is Some && app_id is Some && initial_app_id is Some
            && initial_title is Some && window_id is Some && pid is Some && workspace_id is Some
            && workspace_name is Some && is_xwayland is Some {
            Some(
                WindowV {
                    backend: backend->0,
                    title: title->0,
                    app_id: app_id->0,
                    initial_app_id: initial_app_id->0,
                    initial_title: initial_title->0,
                    window_id: window_id->0,
                    pid: pid->0,
                    workspace_id: workspace_id->0,
                    workspace_name: workspace_name->0,
                    is_xwayland: is_xwayland->0,
                },
            )
        } else {
            None
        }
    }
}

/// The `source_window` member: absent or `null` is no provenance, an object
/// must be a valid window context.
pub open spec fn jsource_field(v: JsonV) -> Option<Option<WindowV>> {
    match jlookup(v, "source_window"@) {
        None => Some(None),
        Some(JsonV::Null) => Some(None),
        Some(o) => match window_of_json(o) {
            Some(w) => Some(Some(w)),
            None => None,
        },
    }
}

/// Pixel bytes read back: every element must be an integer in a byte's
/// range.
pub open spec fn pixels_of_json(items: Seq<JsonV>) -> Option<Seq<u8>>
    decreases items.len(),
{
    if items.len() == 0 {
        Some(Seq::empty())
    } else {
        match pixels_of_json(items.drop_last()) {
            Some(p) => match items.last() {
                JsonV::Int(i) => if 0 <= i <= 255 {
                    Some(p.push(i as u8))
                } else {
                    None
                },
                _ => None,
            },
            None => None,
        }
    }
}

/// One entry read back, strictly: the `kind` tag picks the variant and
/// every field must have the right type.
pub open spec fn entry_of_json(v: JsonV) -> Option<EntryV> {
    match jlookup(v, "kind"@) {
        Some(JsonV::Str(k)) => if k == "text"@ {
            match (jstr_field(v, "value"@), jsource_field(v)) {
                (Some(value), Some(sw)) => Some(EntryV::Text { value, source_window: sw }),
                _ => None,
            }
        } else if k == "image"@ {
            let width = ji32_field(v, "width"@);
            let height = ji32_field(v, "height"@);
            let rowstride = ji32_field(v, "rowstride"@);
            let has_alpha = jbool_field(v, "has_alpha"@);
            let bits_per_sample = ji32_field(v, "bits_per_sample"@);
            let channels = ji32_field(v, "channels"@);
            let pixels = match jlookup(v, "pixels"@) {
                Some(JsonV::Arr(items)) => pixels_of_json(items),
                _ => None,
            };
            let sw = jsource_field(v);
            if width is Some && height is Some && rowstride is Some && has_alpha is Some
                && bits_per_sample is Some && channels is Some && pixels is Some && sw is Some {
                Some(
                    EntryV::Image {
                        width: width->0,
                        height: height->0,
                        rowstride: rowstride->0,
                        has_alpha: has_alpha->0,
                        bits_per_sample: bits_per_sample->0,
                        channels: channels->0,
                        pixels: pixels->0,
                        source_window: sw->0,
                    },
                )
            } else {
                None
            }
        } else {
            None
        },
        _ => None,
    }
}

/// The current shape: every element a valid entry.
pub open spec fn entries_of_json(items: Seq<JsonV>) -> Option<Seq<EntryV>>
    decreases items.len(),
{
    if items.len() == 0 {
        Some(Seq::empty())
    } else {
        match (entries_of_json(items.drop_last()), entry_of_json(items.last())) {
            (Some(es), Some(e)) => Some(es.push(e)),
            _ => None,
        }
    }
}

/// The legacy shape: every element a plain string, read as a text entry
/// with no provenance.
pub open spec fn legacy_of_json(items: Seq<JsonV>) -> Option<Seq<EntryV>>
    decreases items.len(),
{
    if items.len() == 0 {
        Some(Seq::empty())
    } else {
        match (legacy_of_json(items.drop_last()), items.last()) {
            (Some(es), JsonV::Str(s)) => Some(
                es.push(EntryV::Text { value: s, source_window: None }),
            ),
            _ => None,
        }
    }
}

/// The document read back: a `history` array of entries, or failing that,
/// of plain strings.  The current shape is tried first; anything else
/// refuses the document.
pub open spec fn history_of_json(v: JsonV) -> Option<Seq<EntryV>> {
    match jlookup(v, "history"@) {
        Some(JsonV::Arr(items)) => match entries_of_json(items) {
            Some(es) => Some(es),
            None => legacy_of_json(items),
        },
        _ => None,
    }
}


fn get_req_str(j: &Json, name: &str) -> (r: Option<String>)
    ensures
        match r {
            Some(s) => jstr_field(jview(*j), name@) == Some(s@),
            None => jstr_field(jview(*j), name@) is None,
        },
{
    match json_get(j, name) {
        Some(c) => match c.as_chars() {
            Some(v) => Some(string_from_chars(v)),
            None => None,
        },
        None => None,
    }
}

fn get_opt_str(j: &Json, name: &str) -> (r: Option<Option<String>>)
    ensures
        match r {
            Some(o) => jopt_str_field(jview(*j), name@) == Some(
                crate::active_window::opt_str_view(o),
            ),
            None => jopt_str_field(jview(*j), name@) is None,
        },
{
    match json_get(j, name) {
        None => Some(None),
        Some(c) => {
            if c.is_null() {
                Some(None)
            } else {
                match c.as_chars() {
                    Some(v) => Some(Some(string_from_chars(v))),
                    None => None,
                }
            }
        },
    }
}

fn get_opt_i64(j: &Json, name: &str) -> (r: Option<Option<i64>>)
    ensures
        match r {
            Some(o) => jopt_int_field(jview(*j), name@) == Some(o),
            None => jopt_int_field(jview(*j), name@) is None,
        },
{
    match json_get(j, name) {
        None => Some(None),
        Some(c) => {
            if c.is_null() {
                Some(None)
            } else {
                match c.as_i64() {
                    Some(i) => Some(Some(i)),
                    None => None,
                }
            }
        },
    }
}

fn get_opt_bool(j: &Json, name: &str) -> (r: Option<Option<bool>>)
    ensures
        match r {
            Some(o) => jopt_bool_field(jview(*j), name@) == Some(o),
            None => jopt_bool_field(jview(*j), name@) is None,
        },
{
    match json_get(j, name) {
        None => Some(None),
        Some(c) => {
            if c.is_null() {
                Some(None)
            } else {
                match c.as_bool() {
                    Some(b) => Some(Some(b)),
                    None => None,
                }
            }
        },
    }
}

fn get_i32(j: &Json, name: &str) -> (r: Option<i32>)
    ensures
        r == ji32_field(jview(*j), name@),
{
    match json_get(j, name) {
        Some(c) => match c.as_i64() {
            Some(i) => {
                if -0x8000_0000i64 <= i && i <= 0x7FFF_FFFFi64 {
                    Some(i as i32)
                } else {
                    None
                }
            },
            None => None,
        },
        None => None,
    }
}

fn get_bool(j: &Json, name: &str) -> (r: Option<bool>)
    ensures
        r == jbool_field(jview(*j), name@),
{
    match json_get(j, name) {
        Some(c) => c.as_bool(),
        None => None,
    }
}

/// A window context read back from its JSON object.
pub fn window_from_json(j: &Json) -> (r: Option<ActiveWindowContext>)
    ensures
        match r {
            Some(w) => window_of_json(jview(*j)) == Some(w@),
            None => window_of_json(jview(*j)) is None,
        },
{
    let is_obj = match j {
        Json::Obj(_) => true,
        _ => false,
    };
    if !is_obj {
        return None;
    }
    let backend = match get_req_str(j, "backend") {
        Some(x) => x,
        None => {
            return None;
        },
    };
    let title = match get_req_str(j, "title") {
        Some(x) => x,
        None => {
            return None;
        },
    };
    let app_id = match get_opt_str(j, "app_id") {
        Some(x) => x,
        None => {
            return None;
        },
    };
    let initial_app_id = match get_opt_str(j, "initial_app_id") {
        Some(x) => x,
        None => {
            return None;
        },
    };
    let initial_title = match get_opt_str(j, "initial_title") {
        Some(x) => x,
        None => {
            return None;
        },
    };
    let window_id = match get_opt_str(j, "window_id") {
        Some(x) => x,
        None => {
            return None;
        },
    };
    let pid = match get_opt_i64(j, "pid") {
        Some(x) => x,
        None => {
            return None;
        },
    };
    let workspace_id = match get_opt_i64(j, "workspace_id") {
        Some(x) => x,
        None => {
            return None;
        },
    };
    let workspace_name = match get_opt_str(j, "workspace_name") {
        Some(x) => x,
        None => {
            return None;
        },
    };
    let is_xwayland = match get_opt_bool(j, "is_xwayland") {
        Some(x) => x,
        None => {
            return None;
        },
    };
    Some(
        ActiveWindowContext {
            backend,
            title,
            app_id,
            initial_app_id,
            initial_title,
            window_id,
            pid,
            workspace_id,
            workspace_name,
            is_xwayland,
        },
    )
}

fn source_from_json(j: &Json) -> (r: Option<Option<ActiveWindowContext>>)
    ensures
        match r {
            Some(o) => jsource_field(jview(*j)) == Some(crate::active_window::opt_win_view(o)),
            None => jsource_field(jview(*j)) is None,
        },
{
    match json_get(j, "source_window") {
        None => Some(None),
        Some(c) => {
            if c.is_null() {
                Some(None)
            } else {
                match window_from_json(c) {
                    Some(w) => Some(Some(w)),
                    None => None,
                }
            }
        },
    }
}

proof fn lemma_pixels_of_json_extend_none(s: Seq<JsonV>, k: int)
    requires
        0 <= k <= s.len(),
        pixels_of_json(s.take(k)) is None,
    ensures
        pixels_of_json(s) is None,
    decreases s.len() - k,
{
    if k == s.len() {
        assert(s.take(k) =~= s);
    } else {
        assert(s.take(k + 1).drop_last() =~= s.take(k));
        lemma_pixels_of_json_extend_none(s, k + 1);
    }
}

fn pixels_from_json(items: &Vec<Json>) -> (r: Option<Vec<u8>>)
    ensures
        match r {
            Some(v) => pixels_of_json(jview_seq(items@)) == Some(v@),
            None => pixels_of_json(jview_seq(items@)) is None,
        },
{
    let ghost vs = jview_seq(items@);
    proof {
        lemma_jview_seq_props(items@);
    }
    let n = items.len();
    let mut acc: Vec<u8> = Vec::new();
    let mut i: usize = 0;
    proof {
        assert(vs.take(0) =~= Seq::<JsonV>::empty());
        assert(pixels_of_json(vs.take(0)) == Some(acc@));
    }
    while i < n
        invariant
            n == items.len(),
            vs == jview_seq(items@),
            vs.len() == n,
            forall|k: int| 0 <= k < n ==> vs[k] == jview(#[trigger] items@[k]),
            0 <= i <= n,
            pixels_of_json(vs.take(i as int)) == Some(acc@),
        decreases n - i,
    {
        proof {
            assert(vs.take(i + 1).drop_last() =~= vs.take(i as int));
            assert(vs.take(i + 1).last() == vs[i as int]);
        }
        let b = match items[i].as_i64() {
            Some(x) => x,
            None => {
                proof {
                    lemma_pixels_of_json_extend_none(vs, i + 1);
                }
                return None;
            },
        };
        if !(0 <= b && b <= 255) {
            proof {
                lemma_pixels_of_json_extend_none(vs, i + 1);
            }
            return None;
        }
        acc.push(b as u8);
        i = i + 1;
    }
    proof {
        assert(vs.take(n as int) =~= vs);
    }
    Some(acc)
}

/// One entry read back from its JSON object.
pub fn entry_from_json(j: &Json) -> (r: Option<ClipboardEntry>)
    ensures
        match r {
            Some(e) => entry_of_json(jview(*j)) == Some(e@),
            None => entry_of_json(jview(*j)) is None,
        },
{
    let kind = match json_get(j, "kind") {
        Some(c) => match c.as_chars() {
            Some(v) => v,
            None => {
                return None;
            },
        },
        None => {
            return None;
        },
    };
    if crate::text::str_eq_chars("text", kind) {
        let value = match get_req_str(j, "value") {
            Some(x) => x,
            None => {
                return None;
            },
        };
        let source_window = match source_from_json(j) {
            Some(x) => x,
            None => {
                return None;
            },
        };
        Some(ClipboardEntry::Text { value, source_window })
    } else if crate::text::str_eq_chars("image", kind) {
        let width = match get_i32(j, "width") {
            Some(x) => x,
            None => {
                return None;
            },
        };
        let height = match get_i32(j, "height") {
            Some(x) => x,
            None => {
                return None;
            },
        };
        let rowstride = match get_i32(j, "rowstride") {
            Some(x) => x,
            None => {
                return None;
            },
        };
        let has_alpha = match get_bool(j, "has_alpha") {
            Some(x) => x,
            None => {
                return None;
            },
        };
        let bits_per_sample = match get_i32(j, "bits_per_sample") {
            Some(x) => x,
            None => {
                return None;
            },
        };
        let channels = match get_i32(j, "channels") {
            Some(x) => x,
            None => {
                return None;
            },
        };
        let pixels = match json_get(j, "pixels") {
            Some(c) => match c.as_items() {
                Some(items) => match pixels_from_json(items) {
                    Some(p) => p,
                    None => {
                        return None;
                    },
                },
                None => {
                    return None;
                },
            },
            None => {
                return None;
            },
        };
        let source_window = match source_from_json(j) {
            Some(x) => x,
            None => {
                return None;
            },
        };
        Some(
            ClipboardEntry::Image {
                width,
                height,
                rowstride,
                has_alpha,
                bits_per_sample,
                channels,
                pixels,
                source_window,
            },
        )
    } else {
        None
    }
}

proof fn lemma_entries_of_json_extend_none(s: Seq<JsonV>, k: int)
    requires
        0 <= k <= s.len(),
        entries_of_json(s.take(k)) is None,
    ensures
        entries_of_json(s) is None,
    decreases s.len() - k,
{
    if k == s.len() {
        assert(s.take(k) =~= s);
    } else {
        assert(s.take(k + 1).drop_last() =~= s.take(k));
        lemma_entries_of_json_extend_none(s, k + 1);
    }
}

proof fn lemma_legacy_of_json_extend_none(s: Seq<JsonV>, k: int)
    requires
        0 <= k <= s.len(),
        legacy_of_json(s.take(k)) is None,
    ensures
        legacy_of_json(s) is None,
    decreases s.len() - k,
{
    if k == s.len() {
        assert(s.take(k) =~= s);
    } else {
        assert(s.take(k + 1).drop_last() =~= s.take(k));
        lemma_legacy_of_json_extend_none(s, k + 1);
    }
}

fn entries_from_items(items: &Vec<Json>) -> (r: Option<Vec<ClipboardEntry>>)
    ensures
        match r {
            Some(es) => entries_of_json(jview_seq(items@)) == Some(views(es@)),
            None => entries_of_json(jview_seq(items@)) is None,
        },
{
    let ghost vs = jview_seq(items@);
    proof {
        lemma_jview_seq_props(items@);
    }
    let n = items.len();
    let mut acc: Vec<ClipboardEntry> = Vec::new();
    let mut i: usize = 0;
    proof {
        assert(vs.take(0) =~= Seq::<JsonV>::empty());
        assert(views(acc@) =~= Seq::<EntryV>::empty());
        assert(entries_of_json(vs.take(0)) == Some(views(acc@)));
    }
    while i < n
        invariant
            n == items.len(),
            vs == jview_seq(items@),
            vs.len() == n,
            forall|k: int| 0 <= k < n ==> vs[k] == jview(#[trigger] items@[k]),
            0 <= i <= n,
            acc@.len() == i,
            entries_of_json(vs.take(i as int)) == Some(views(acc@)),
        decreases n - i,
    {
        proof {
            assert(vs.take(i + 1).drop_last() =~= vs.take(i as int));
            assert(vs.take(i + 1).last() == vs[i as int]);
        }
        let e = match entry_from_json(&items[i]) {
            Some(x) => x,
            None => {
                proof {
                    lemma_entries_of_json_extend_none(vs, i + 1);
                }
                return None;
            },
        };
        let ghost pre = acc@;
        acc.push(e);
        proof {
            assert(views(acc@) =~= views(pre).push(e@)) by {
                assert(views(pre).len() == pre.len());
                assert forall|k: int| 0 <= k < acc@.len() implies views(acc@)[k] == views(
                    pre,
                ).push(e@)[k] by {
                    if k < pre.len() {
                        assert(acc@[k] == pre[k]);
                    }
                }
            }
        }
        i = i + 1;
    }
    proof {
        assert(vs.take(n as int) =~= vs);
    }
    Some(acc)
}

fn legacy_from_items(items: &Vec<Json>) -> (r: Option<Vec<ClipboardEntry>>)
    ensures
        match r {
            Some(es) => legacy_of_json(jview_seq(items@)) == Some(views(es@)),
            None => legacy_of_json(jview_seq(items@)) is None,
        },
{
    let ghost vs = jview_seq(items@);
    proof {
        lemma_jview_seq_props(items@);
    }
    let n = items.len();
    let mut acc: Vec<ClipboardEntry> = Vec::new();
    let mut i: usize = 0;
    proof {
        assert(vs.take(0) =~= Seq::<JsonV>::empty());
        assert(views(acc@) =~= Seq::<EntryV>::empty());
        assert(legacy_of_json(vs.take(0)) == Some(views(acc@)));
    }
    while i < n
        invariant
            n == items.len(),
            vs == jview_seq(items@),
            vs.len() == n,
            forall|k: int| 0 <= k < n ==> vs[k] == jview(#[trigger] items@[k]),
            0 <= i <= n,
            acc@.len() == i,
            legacy_of_json(vs.take(i as int)) == Some(views(acc@)),
        decreases n - i,
    {
        proof {
            assert(vs.take(i + 1).drop_last() =~= vs.take(i as int));
            assert(vs.take(i + 1).last() == vs[i as int]);
        }
        let value = match items[i].as_chars() {
            Some(v) => string_from_chars(v),
            None => {
                proof {
                    lemma_legacy_of_json_extend_none(vs, i + 1);
                }
                return None;
            },
        };
        let e = ClipboardEntry::Text { value, source_window: None };
        let ghost pre = acc@;
        acc.push(e);
        proof {
            assert(views(acc@) =~= views(pre).push(e@)) by {
                assert(views(pre).len() == pre.len());
                assert forall|k: int| 0 <= k < acc@.len() implies views(acc@)[k] == views(
                    pre,
                ).push(e@)[k] by {
                    if k < pre.len() {
                        assert(acc@[k] == pre[k]);
                    }
                }
            }
        }
        i = i + 1;
    }
    proof {
        assert(vs.take(n as int) =~= vs);
    }
    Some(acc)
}

/// The document read back, current shape first, the legacy plain-string
/// shape as the fallback.
pub fn history_from_json(j: &Json) -> (r: Option<Vec<ClipboardEntry>>)
    ensures
        match r {
            Some(es) => history_of_json(jview(*j)) == Some(views(es@)),
            None => history_of_json(jview(*j)) is None,
        },
{
    let items = match json_get(j, "history") {
        Some(c) => match c.as_items() {
            Some(items) => items,
            None => {
                return None;
            },
        },
        None => {
            return None;
        },
    };
    match entries_from_items(items) {
        Some(es) => Some(es),
        None => legacy_from_items(items),
    }
}

/// What decoding yields for given text: the text must parse as one JSON
/// document (per [`sp_parse_json`]) that [`history_of_json`] accepts;
/// anything else — unparseable text, a wrong shape, a wrongly typed field —
/// is refused.
pub open spec fn sp_decode_history(t: Seq<char>) -> Option<Seq<EntryV>> {
    match sp_parse_json(t) {
        Some(doc) => history_of_json(doc),
        None => None,
    }
}

/// The persisted text decoded: the current shape first, then the legacy
/// one; exactly the texts [`sp_decode_history`] accepts load, to exactly
/// those entries.
pub fn decode_history(text: &str) -> (r: Option<Vec<ClipboardEntry>>)
    ensures
        match r {
            Some(es) => sp_decode_history(text@) == Some(views(es@)),
            None => sp_decode_history(text@) is None,
        },
{
    let doc = match parse_json(text) {
        Some(d) => d,
        None => {
            return None;
        },
    };
    match history_from_json(&doc) {
        Some(es) => {
            proof {
                assert(history_of_json(jview(doc)) == Some(views(es@)));
            }
            Some(es)
        },
        None => None,
    }
}


proof fn lemma_window_round_trip(w: WindowV)
    ensures
        window_of_json(json_of_window(w)) == Some(w),
{
    let v = json_of_window(w);
    let fields = v->Obj_0;
    reveal_strlit("backend");
    reveal_strlit("title");
    reveal_strlit("app_id");
    reveal_strlit("initial_app_id");
    reveal_strlit("initial_title");
    reveal_strlit("window_id");
    reveal_strlit("pid");
    reveal_strlit("workspace_id");
    reveal_strlit("workspace_name");
    reveal_strlit("is_xwayland");
    assert("backend"@.len() == 7);
    assert("title"@.len() == 5);
    assert("app_id"@.len() == 6);
    assert("initial_app_id"@.len() == 14);
    assert("initial_title"@.len() == 13);
    assert("window_id"@.len() == 9);
    assert("pid"@.len() == 3);
    assert("workspace_id"@.len() == 12);
    assert("workspace_name"@.len() == 14);
    assert("is_xwayland"@.len() == 11);
    assert("initial_app_id"@[0] == 'i');
    assert("workspace_name"@[0] == 'w');
    lemma_obj_lookup_at(fields, "backend"@, 0);
    lemma_obj_lookup_at(fields, "title"@, 1);
    lemma_obj_lookup_at(fields, "app_id"@, 2);
    lemma_obj_lookup_at(fields, "initial_app_id"@, 3);
    lemma_obj_lookup_at(fields, "initial_title"@, 4);
    lemma_obj_lookup_at(fields, "window_id"@, 5);
    lemma_obj_lookup_at(fields, "pid"@, 6);
    lemma_obj_lookup_at(fields, "workspace_id"@, 7);
    lemma_obj_lookup_at(fields, "workspace_name"@, 8);
    lemma_obj_lookup_at(fields, "is_xwayland"@, 9);
}

proof fn lemma_pixels_round_trip(p: Seq<u8>)
    ensures
        pixels_of_json(pixels_json(p)) == Some(p),
    decreases p.len(),
{
    if p.len() == 0 {
        assert(pixels_json(p) =~= Seq::<JsonV>::empty());
        assert(pixels_of_json(pixels_json(p)) == Some(Seq::<u8>::empty()));
        assert(Seq::<u8>::empty() =~= p);
    } else {
        lemma_pixels_round_trip(p.drop_last());
        assert(pixels_json(p).drop_last() =~= pixels_json(p.drop_last()));
        assert(pixels_json(p).last() == JsonV::Int(p.last() as i64));
        assert(p.drop_last().push(p.last()) =~= p);
    }
}

/// What the codec writes, it reads back: one entry survives the trip
/// through its JSON object unchanged.
pub proof fn lemma_entry_round_trip(e: EntryV)
    ensures
        entry_of_json(json_of_entry(e)) == Some(e),
{
    let v = json_of_entry(e);
    let fields = v->Obj_0;
    reveal_strlit("kind");
    reveal_strlit("text");
    reveal_strlit("image");
    reveal_strlit("value");
    reveal_strlit("source_window");
    reveal_strlit("width");
    reveal_strlit("height");
    reveal_strlit("rowstride");
    reveal_strlit("has_alpha");
    reveal_strlit("bits_per_sample");
    reveal_strlit("channels");
    reveal_strlit("pixels");
    assert("kind"@.len() == 4);
    assert("text"@.len() == 4);
    assert("image"@.len() == 5);
    assert("value"@.len() == 5);
    assert("source_window"@.len() == 13);
    assert("width"@.len() == 5);
    assert("height"@.len() == 6);
    assert("rowstride"@.len() == 9);
    assert("has_alpha"@.len() == 9);
    assert("bits_per_sample"@.len() == 15);
    assert("channels"@.len() == 8);
    assert("pixels"@.len() == 6);
    assert("kind"@[0] == 'k');
    assert("text"@[0] == 't');
    assert("rowstride"@[0] == 'r');
    assert("has_alpha"@[0] == 'h');
    assert("height"@[0] == 'h');
    assert("pixels"@[0] == 'p');
    assert("width"@[0] == 'w');
    assert("value"@[0] == 'v');
    match e {
        EntryV::Text { value, source_window } => {
            lemma_obj_lookup_at(fields, "kind"@, 0);
            lemma_obj_lookup_at(fields, "value"@, 1);
            lemma_obj_lookup_at(fields, "source_window"@, 2);
            match source_window {
                Some(w) => {
                    lemma_window_round_trip(w);
                },
                None => {},
            }
        },
        EntryV::Image { pixels, source_window, .. } => {
            lemma_obj_lookup_at(fields, "kind"@, 0);
            lemma_obj_lookup_at(fields, "width"@, 1);
            lemma_obj_lookup_at(fields, "height"@, 2);
            lemma_obj_lookup_at(fields, "rowstride"@, 3);
            lemma_obj_lookup_at(fields, "has_alpha"@, 4);
            lemma_obj_lookup_at(fields, "bits_per_sample"@, 5);
            lemma_obj_lookup_at(fields, "channels"@, 6);
            lemma_obj_lookup_at(fields, "pixels"@, 7);
            lemma_obj_lookup_at(fields, "source_window"@, 8);
            assert("image"@ != "text"@);
            lemma_pixels_round_trip(pixels);
            match source_window {
                Some(w) => {
                    lemma_window_round_trip(w);
                },
                None => {},
            }
        },
    }
}

proof fn lemma_entries_round_trip(h: Seq<EntryV>)
    ensures
        entries_of_json(h.map_values(|e: EntryV| json_of_entry(e))) == Some(h),
    decreases h.len(),
{
    let mapped = h.map_values(|e: EntryV| json_of_entry(e));
    if h.len() == 0 {
        assert(mapped =~= Seq::<JsonV>::empty());
        assert(entries_of_json(mapped) == Some(Seq::<EntryV>::empty()));
        assert(Seq::<EntryV>::empty() =~= h);
    } else {
        lemma_entries_round_trip(h.drop_last());
        assert(mapped.drop_last() =~= h.drop_last().map_values(|e: EntryV| json_of_entry(e)));
        assert(mapped.last() == json_of_entry(h.last()));
        lemma_entry_round_trip(h.last());
        assert(h.drop_last().push(h.last()) =~= h);
    }
}

/// Round trip of the persistence codec at the document level: the JSON
/// document written for a history reads back as exactly that history,
/// entry for entry, provenance included.
pub proof fn lemma_history_round_trip(h: Seq<EntryV>)
    ensures
        history_of_json(json_of_history(h)) == Some(h),
{
    let v = json_of_history(h);
    let fields = v->Obj_0;
    reveal_strlit("history");
    assert("history"@.len() == 7);
    lemma_obj_lookup_at(fields, "history"@, 0);
    lemma_entries_round_trip(h);
}

proof fn lemma_json_of_window_printable(w: WindowV)
    ensures
        printable(json_of_window(w)),
{
    let fields = json_of_window(w)->Obj_0;
    assert forall|k: int| 0 <= k < fields.len() implies printable((#[trigger] fields[k]).1) by {
        if k == 2 || k == 3 || k == 4 || k == 5 || k == 8 {
            assert(fields[k].1 matches JsonV::Str(_) || fields[k].1 is Null);
        } else if k == 6 || k == 7 {
            assert(fields[k].1 matches JsonV::Int(_) || fields[k].1 is Null);
        } else if k == 9 {
            assert(fields[k].1 matches JsonV::Bool(_) || fields[k].1 is Null);
        }
    }
    lemma_printable_fields_all(fields);
}

proof fn lemma_json_of_entry_printable(e: EntryV)
    ensures
        printable(json_of_entry(e)),
{
    let fields = json_of_entry(e)->Obj_0;
    match e {
        EntryV::Text { value, source_window } => {
            assert forall|k: int| 0 <= k < fields.len() implies printable(
                (#[trigger] fields[k]).1,
            ) by {
                if k == 2 {
                    match source_window {
                        Some(w) => {
                            lemma_json_of_window_printable(w);
                        },
                        None => {},
                    }
                }
            }
            lemma_printable_fields_all(fields);
        },
        EntryV::Image { pixels, source_window, .. } => {
            assert forall|k: int| 0 <= k < fields.len() implies printable(
                (#[trigger] fields[k]).1,
            ) by {
                if k == 7 {
                    let px = pixels_json(pixels);
                    assert forall|m: int| 0 <= m < px.len() implies printable(
                        #[trigger] px[m],
                    ) by {
                        assert(px[m] == JsonV::Int(pixels[m] as i64));
                    }
                    lemma_printable_seq_all(px);
                } else if k == 8 {
                    match source_window {
                        Some(w) => {
                            lemma_json_of_window_printable(w);
                        },
                        None => {},
                    }
                }
            }
            lemma_printable_fields_all(fields);
        },
    }
}

proof fn lemma_json_of_history_printable(h: Seq<EntryV>)
    ensures
        printable(json_of_history(h)),
{
    let items = h.map_values(|e: EntryV| json_of_entry(e));
    assert forall|k: int| 0 <= k < items.len() implies printable(#[trigger] items[k]) by {
        lemma_json_of_entry_printable(h[k]);
    }
    lemma_printable_seq_all(items);
    let fields = json_of_history(h)->Obj_0;
    assert forall|k: int| 0 <= k < fields.len() implies printable((#[trigger] fields[k]).1) by {
        assert(fields[0].1 == JsonV::Arr(items));
    }
    lemma_printable_fields_all(fields);
}

/// Saving and loading round-trip, down to the characters: the exact text
/// the codec writes for a history parses back and decodes as exactly that
/// history; for a well-formed history (bounded, no empty entries, no
/// duplicated content) the store built from it then holds exactly that
/// history.
pub proof fn lemma_save_load_round_trip(h: Seq<EntryV>, limit: nat)
    requires
        crate::state::wf_history(h, limit),
    ensures
        sp_decode_history(print_json(json_of_history(h))) == Some(h),
        history_of_json(json_of_history(h)) == Some(h),
        crate::state::load_result(h, limit) == h,
{
    lemma_json_of_history_printable(h);
    lemma_parse_print(json_of_history(h));
    lemma_history_round_trip(h);
    crate::state::lemma_load_result_identity(h, limit);
}

/// The legacy shape reads as text entries with no provenance, in file
/// order: the document `{"history": [s1, s2, ...]}` with every element a
/// string that is not a well-formed entry object.
pub proof fn lemma_legacy_strings(ss: Seq<Seq<char>>)
    requires
        ss.len() > 0,
    ensures
        history_of_json(
            JsonV::Obj(seq![("history"@, JsonV::Arr(ss.map_values(|s: Seq<char>| JsonV::Str(s))))]),
        ) == Some(ss.map_values(|s: Seq<char>| EntryV::Text { value: s, source_window: None })),
{
    let items = ss.map_values(|s: Seq<char>| JsonV::Str(s));
    let v = JsonV::Obj(seq![("history"@, JsonV::Arr(items))]);
    let fields = v->Obj_0;
    lemma_obj_lookup_at(fields, "history"@, 0);
    reveal_strlit("kind");
    assert(entries_of_json(items) is None) by {
        assert(items.last() == JsonV::Str(ss.last()));
        assert(entry_of_json(items.last()) is None);
        assert(items.take(items.len() as int) =~= items);
        lemma_entries_of_json_extend_none(items, items.len() as int);
        assert(entries_of_json(items.take(items.len() as int)) == entries_of_json(items));
    }
    lemma_legacy_all_strings(ss);
}

proof fn lemma_legacy_all_strings(ss: Seq<Seq<char>>)
    ensures
        legacy_of_json(ss.map_values(|s: Seq<char>| JsonV::Str(s))) == Some(
            ss.map_values(|s: Seq<char>| EntryV::Text { value: s, source_window: None }),
        ),
    decreases ss.len(),
{
    let items = ss.map_values(|s: Seq<char>| JsonV::Str(s));
    let want = ss.map_values(|s: Seq<char>| EntryV::Text { value: s, source_window: None });
    if ss.len() == 0 {
        assert(items =~= Seq::<JsonV>::empty());
        assert(legacy_of_json(items) == Some(Seq::<EntryV>::empty()));
        assert(Seq::<EntryV>::empty() =~= want);
    } else {
        lemma_legacy_all_strings(ss.drop_last());
        assert(items.drop_last() =~= ss.drop_last().map_values(|s: Seq<char>| JsonV::Str(s)));
        assert(items.last() == JsonV::Str(ss.last()));
        assert(ss.drop_last().map_values(
            |s: Seq<char>| EntryV::Text { value: s, source_window: None },
        ).push(EntryV::Text { value: ss.last(), source_window: None }) =~= want);
    }
}

} // verus!
