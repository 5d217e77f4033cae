//! Turning the plain data of a CUPS queue into the entries that the service hands out.

use vstd::prelude::*;

use vstd::string::*;

use crate::options::OptionMap;
use crate::text::{
    bool_text, bool_to_text, contains_pat, contains_str, find_char, find_either_str,
    int_text, int_to_text, lemma_back_ws_bounds, lemma_find_either_bounds, lemma_skip_ws_bounds,
    lemma_trim_idempotent,
    owned, skip_ws, parse_bounded, parse_unsigned,
    push_char, text_eq, trim, trim_str,
};
use crate::types::{opt_view, PrinterEntry, PrinterStatus};
use crate::uri::{web_page_from_device_uri, web_page_of};

verus! {

/// The state of a CUPS queue.
#[derive(Clone, Copy, Debug, PartialEq, Eq, Structural)]
pub enum QueueState {
    Idle,
    Processing,
    Stopped,
    Unknown,
}

/// The `printer-type` bit that marks a printer class.
pub const PRINTER_CLASS: u32 = 1;

/// The trimmed, non-empty pieces of a comma-separated list, in order.
pub open spec fn list_values(s: Seq<char>) -> Seq<Seq<char>>
    decreases s.len(),
{
    let i = find_char(s, ',', 0);
    let head = trim(s.subrange(0, i));
    let tail = if 0 <= i < s.len() {
        list_values(s.subrange(i + 1, s.len() as int))
    } else {
        Seq::empty()
    };
    if head.len() > 0 {
        seq![head] + tail
    } else {
        tail
    }
}

/// The values of a comma-separated option, empty when the option is missing.
pub open spec fn option_values_of(m: Map<Seq<char>, Seq<char>>, name: Seq<char>) -> Seq<Seq<char>> {
    if m.contains_key(name) {
        list_values(m[name])
    } else {
        Seq::empty()
    }
}

/// Views of a list of strings.
pub open spec fn views(v: Seq<String>) -> Seq<Seq<char>> {
    v.map_values(|s: String| s@)
}

proof fn lemma_list_values_unfold(s: Seq<char>)
    ensures
        ({
            let i = find_char(s, ',', 0);
            let head = trim(s.subrange(0, i));
            let tail = if 0 <= i < s.len() {
                list_values(s.subrange(i + 1, s.len() as int))
            } else {
                Seq::empty()
            };
            list_values(s) == if head.len() > 0 {
                seq![head] + tail
            } else {
                tail
            }
        }),
{
}

/// The trimmed, non-empty pieces of a comma-separated list.
pub fn split_list(s: &str) -> (r: Vec<String>)
    ensures
        views(r@) == list_values(s@),
{
    let mut out: Vec<String> = Vec::new();
    let mut rest = s;
    loop
        invariant
            list_values(s@) == views(out@) + list_values(rest@),
        decreases rest@.len(),
    {
        let n = rest.unicode_len();
        let i = find_either_str(rest, ',', ',', 0);
        proof {
            lemma_find_either_bounds(rest@, ',', ',', 0);
            lemma_list_values_unfold(rest@);
        }
        let head = trim_str(rest.substring_char(0, i));
        let ghost old_out = views(out@);
        if head.unicode_len() > 0 {
            out.push(owned(head));
            assert(views(out@) == old_out.push(head@));
        }
        if i < n {
            let next = rest.substring_char(i + 1, n);
            proof {
                if head@.len() > 0 {
                    assert(old_out + (seq![head@] + list_values(next@)) == old_out.push(head@)
                        + list_values(next@));
                }
            }
            rest = next;
        } else {
            assert(list_values(s@) == views(out@)) by {
                if head@.len() > 0 {
                    assert(old_out.push(head@) + Seq::<Seq<char>>::empty() == old_out.push(head@));
                } else {
                    assert(old_out + Seq::<Seq<char>>::empty() == old_out);
                }
            }
            return out;
        }
    }
}

/// Splits a comma-separated option into its trimmed, non-empty values.
pub fn option_values(options: &OptionMap, name: &str) -> (r: Vec<String>)
    ensures
        views(r@) == option_values_of(options.map(), name@),
{
    match options.get(name) {
        Some(v) => split_list(v.as_str()),
        None => {
            let r = Vec::new();
            assert(views(r@) == Seq::<Seq<char>>::empty());
            r
        },
    }
}

} // verus!

verus! {

/// Some state reason reports low or empty toner.
pub open spec fn toner_problem(reasons: Seq<String>) -> bool {
    exists|i: int|
        0 <= i < reasons.len() && (contains_pat(#[trigger] reasons[i]@, "toner-low"@) || contains_pat(
            reasons[i]@,
            "toner-empty"@,
        ))
}

/// The status a queue shows: low toner when a state reason says so, otherwise ready
/// while idle or processing and offline while stopped or unknown.
pub open spec fn status_of(reasons: Seq<String>, state: QueueState) -> PrinterStatus {
    if toner_problem(reasons) {
        PrinterStatus::LowToner
    } else {
        match state {
            QueueState::Idle | QueueState::Processing => PrinterStatus::Ready,
            QueueState::Stopped | QueueState::Unknown => PrinterStatus::Offline,
        }
    }
}

/// Derives the status of a queue from its state reasons and state.
pub fn printer_status(state_reasons: &Vec<String>, state: QueueState) -> (r: PrinterStatus)
    ensures
        r == status_of(state_reasons@, state),
{
    let mut i: usize = 0;
    while i < state_reasons.len()
        invariant
            i <= state_reasons@.len(),
            forall|j: int|
                0 <= j < i ==> !(contains_pat(#[trigger] state_reasons@[j]@, "toner-low"@)
                    || contains_pat(state_reasons@[j]@, "toner-empty"@)),
        decreases state_reasons@.len() - i,
    {
        let reason = state_reasons[i].as_str();
        if contains_str(reason, "toner-low") || contains_str(reason, "toner-empty") {
            assert(toner_problem(state_reasons@));
            return PrinterStatus::LowToner;
        }
        i += 1;
    }
    match state {
        QueueState::Idle | QueueState::Processing => PrinterStatus::Ready,
        QueueState::Stopped | QueueState::Unknown => PrinterStatus::Offline,
    }
}

/// The queue is a printer class: its `printer-type` is a number with the class bit set.
pub open spec fn is_class(m: Map<Seq<char>, Seq<char>>) -> bool {
    m.contains_key("printer-type"@) && match parse_unsigned(m["printer-type"@], 0xffff_ffff) {
        Some(t) => (t as u32) & PRINTER_CLASS != 0,
        None => false,
    }
}

/// Whether the options describe a printer class.
pub fn is_printer_class(options: &OptionMap) -> (r: bool)
    ensures
        r == is_class(options.map()),
{
    let printer_type = match options.get("printer-type") {
        Some(v) => v,
        None => return false,
    };
    match parse_bounded(printer_type.as_str(), 0xffff_ffff) {
        Some(t) => (t as u32) & PRINTER_CLASS != 0,
        None => false,
    }
}

/// The URI of a queue on the local CUPS server.
pub open spec fn local_uri_of(name: Seq<char>, m: Map<Seq<char>, Seq<char>>) -> Seq<char> {
    "ipp://localhost/"@ + (if is_class(m) {
        "classes"@
    } else {
        "printers"@
    }) + "/"@ + name
}

/// The URI of a queue on the local CUPS server, under `classes` or `printers`.
pub fn local_printer_uri(name: &str, options: &OptionMap) -> (r: String)
    ensures
        r@ == local_uri_of(name@, options.map()),
{
    let mut out = owned("ipp://localhost/");
    if is_printer_class(options) {
        out.append("classes");
    } else {
        out.append("printers");
    }
    out.append("/");
    out.append(name);
    out
}

/// The web page of a queue: its non-blank `printer-more-info`, or else the host page
/// derived from its `device-uri`.
pub open spec fn web_page_for(m: Map<Seq<char>, Seq<char>>) -> Option<Seq<char>> {
    if m.contains_key("printer-more-info"@) {
        if trim(m["printer-more-info"@]).len() == 0 {
            None
        } else {
            Some(trim(m["printer-more-info"@]))
        }
    } else if m.contains_key("device-uri"@) {
        web_page_of(m["device-uri"@])
    } else {
        None
    }
}

/// Picks the web page of a queue from its options.
pub fn web_page_from_options(options: &OptionMap) -> (r: Option<String>)
    ensures
        opt_view(r) == web_page_for(options.map()),
{
    match options.get("printer-more-info") {
        Some(url) => {
            let url = trim_str(url.as_str());
            if url.unicode_len() == 0 {
                None
            } else {
                Some(owned(url))
            }
        },
        None => match options.get("device-uri") {
            Some(device_uri) => web_page_from_device_uri(device_uri.as_str()),
            None => None,
        },
    }
}

/// The plain data of a CUPS destination that a printer entry is made from.
pub struct QueueRecord {
    /// The queue name with its instance, as CUPS spells it.
    pub full_name: String,
    /// The queue name.
    pub name: String,
    pub is_default: bool,
    pub uri: Option<String>,
    pub info: Option<String>,
    pub location: Option<String>,
    pub make_and_model: Option<String>,
    pub device_uri: Option<String>,
    pub state: QueueState,
    /// The text CUPS gives for the state.
    pub state_text: String,
    pub state_reasons: Vec<String>,
    pub options: OptionMap,
}

/// An optional string, or the empty string when absent.
pub open spec fn or_empty(o: Option<String>) -> Seq<char> {
    match o {
        Some(s) => s@,
        None => Seq::empty(),
    }
}

fn or_empty_string(o: Option<String>) -> (r: String)
    ensures
        r@ == or_empty(o),
{
    match o {
        Some(s) => s,
        None => String::new(),
    }
}

/// What a printer entry built from `d` holds, field by field.
pub open spec fn entry_from(d: QueueRecord, e: PrinterEntry) -> bool {
    let m = d.options.map();
    &&& e.id@ == d.full_name@
    &&& e.name@ == (match d.info {
        Some(info) if info@.len() > 0 => info@,
        _ => d.full_name@,
    })
    &&& e.is_default == d.is_default
    &&& e.printer_uri@ == (match d.uri {
        Some(u) => u@,
        None => local_uri_of(d.name@, m),
    })
    &&& e.status == status_of(d.state_reasons@, d.state)
    &&& e.queue_status@ == d.state_text@
    &&& e.location@ == or_empty(d.location)
    &&& e.model@ == or_empty(d.make_and_model)
    &&& e.device_name@ == or_empty(d.device_uri)
    &&& opt_view(e.web_page) == web_page_for(m)
    &&& e.driver_version@ == Seq::<char>::empty()
    &&& e.paper_size_idx == 0
    &&& e.print_sides_idx == 0
    &&& e.options.map() == m
    &&& e.supplies@.len() == 0
    &&& views(e.paper_sizes@) == option_values_of(m, "media-supported"@)
    &&& views(e.print_sides@) == option_values_of(m, "sides-supported"@)
}

/// Builds the printer entry of a CUPS destination.
pub fn destination_to_printer_entry(d: QueueRecord) -> (r: PrinterEntry)
    ensures
        entry_from(d, r),
{
    let ghost d0 = d;
    let status = printer_status(&d.state_reasons, d.state);
    let printer_uri = match d.uri {
        Some(u) => u,
        None => local_printer_uri(d.name.as_str(), &d.options),
    };
    let id = d.full_name;
    let name = match d.info {
        Some(info) => if info.as_str().unicode_len() > 0 {
            info
        } else {
            id.clone()
        },
        None => id.clone(),
    };
    let paper_sizes = option_values(&d.options, "media-supported");
    let print_sides = option_values(&d.options, "sides-supported");
    let web_page = web_page_from_options(&d.options);
    PrinterEntry {
        id,
        name,
        is_default: d.is_default,
        printer_uri,
        status,
        queue_status: d.state_text,
        location: or_empty_string(d.location),
        model: or_empty_string(d.make_and_model),
        device_name: or_empty_string(d.device_uri),
        web_page,
        driver_version: String::new(),
        paper_size_idx: 0,
        print_sides_idx: 0,
        options: d.options,
        supplies: Vec::new(),
        paper_sizes,
        print_sides,
    }
}

} // verus!

verus! {

/// The values that CUPS reports for one attribute, read at every index.
pub struct AttrReading {
    pub booleans: Vec<bool>,
    pub strings: Vec<Option<String>>,
    pub integers: Vec<i32>,
}

/// The trimmed, non-blank strings among a list of optional strings.
pub open spec fn kept_strings(ss: Seq<Option<String>>) -> Seq<Seq<char>>
    decreases ss.len(),
{
    if ss.len() == 0 {
        Seq::empty()
    } else {
        let rest = kept_strings(ss.drop_last());
        match ss.last() {
            Some(v) if trim(v@).len() > 0 => rest.push(trim(v@)),
            _ => rest,
        }
    }
}

/// The text values of an attribute: the booleans of `printer-is-accepting-jobs`, else
/// the non-blank strings, else the integers.
pub open spec fn attr_values_of(name: Seq<char>, a: AttrReading) -> Seq<Seq<char>> {
    if name == "printer-is-accepting-jobs"@ {
        a.booleans@.map_values(|b: bool| bool_text(b))
    } else if kept_strings(a.strings@).len() > 0 {
        kept_strings(a.strings@)
    } else {
        a.integers@.map_values(|i: i32| int_text(i as int))
    }
}

/// Turns the values CUPS reports for an attribute into text.
pub fn attr_values(name: &str, attr: &AttrReading) -> (r: Vec<String>)
    ensures
        views(r@) == attr_values_of(name@, *attr),
{
    if text_eq(name, "printer-is-accepting-jobs") {
        let mut values: Vec<String> = Vec::new();
        let mut i: usize = 0;
        while i < attr.booleans.len()
            invariant
                i <= attr.booleans@.len(),
                views(values@) == attr.booleans@.subrange(0, i as int).map_values(
                    |b: bool| bool_text(b),
                ),
            decreases attr.booleans@.len() - i,
        {
            let ghost pre = views(values@);
            values.push(bool_to_text(attr.booleans[i]));
            assert(views(values@) =~= pre.push(bool_text(attr.booleans@[i as int])));
            assert(attr.booleans@.subrange(0, i + 1).map_values(|b: bool| bool_text(b))
                =~= attr.booleans@.subrange(0, i as int).map_values(|b: bool| bool_text(b)).push(
                bool_text(attr.booleans@[i as int]),
            ));
            i += 1;
        }
        assert(attr.booleans@.subrange(0, i as int) == attr.booleans@);
        return values;
    }
    let mut values: Vec<String> = Vec::new();
    let mut i: usize = 0;
    while i < attr.strings.len()
        invariant
            i <= attr.strings@.len(),
            views(values@) == kept_strings(attr.strings@.subrange(0, i as int)),
        decreases attr.strings@.len() - i,
    {
        let ghost prefix = attr.strings@.subrange(0, i + 1);
        assert(prefix.drop_last() == attr.strings@.subrange(0, i as int));
        match &attr.strings[i] {
            Some(v) => {
                let t = trim_str(v.as_str());
                if t.unicode_len() > 0 {
                    values.push(owned(t));
                }
            },
            None => {},
        }
        i += 1;
    }
    assert(attr.strings@.subrange(0, i as int) == attr.strings@);
    if values.len() > 0 {
        return values;
    }
    let mut i: usize = 0;
    while i < attr.integers.len()
        invariant
            i <= attr.integers@.len(),
            views(values@) == attr.integers@.subrange(0, i as int).map_values(
                |n: i32| int_text(n as int),
            ),
        decreases attr.integers@.len() - i,
    {
        let ghost pre = views(values@);
        values.push(int_to_text(attr.integers[i] as i64));
        assert(views(values@) =~= pre.push(int_text(attr.integers@[i as int] as int)));
        assert(attr.integers@.subrange(0, i + 1).map_values(|n: i32| int_text(n as int))
            =~= attr.integers@.subrange(0, i as int).map_values(|n: i32| int_text(n as int)).push(
            int_text(attr.integers@[i as int] as int),
        ));
        i += 1;
    }
    assert(attr.integers@.subrange(0, i as int) == attr.integers@);
    values
}

/// Values joined with commas.
pub open spec fn joined(vs: Seq<Seq<char>>) -> Seq<char>
    decreases vs.len(),
{
    if vs.len() == 0 {
        Seq::empty()
    } else if vs.len() == 1 {
        vs[0]
    } else {
        joined(vs.drop_last()) + seq![','] + vs.last()
    }
}

/// Joins values with commas.
pub fn join_values(values: &Vec<String>) -> (r: String)
    ensures
        r@ == joined(views(values@)),
{
    let mut out = String::new();
    let mut i: usize = 0;
    while i < values.len()
        invariant
            i <= values@.len(),
            out@ == joined(views(values@.subrange(0, i as int))),
        decreases values@.len() - i,
    {
        let ghost pre = views(values@.subrange(0, i as int));
        assert(views(values@.subrange(0, i + 1)) == pre.push(values@[i as int]@));
        assert(views(values@.subrange(0, i + 1)).drop_last() == pre);
        if i > 0 {
            push_char(&mut out, ',');
        }
        out.append(values[i].as_str());
        i += 1;
    }
    assert(values@.subrange(0, i as int) == values@);
    out
}

/// The attributes of `attrs` that the options do not hold yet, in order.
pub open spec fn missing_of(m: Map<Seq<char>, Seq<char>>, attrs: Seq<Seq<char>>) -> Seq<Seq<char>> {
    attrs.filter(|a: Seq<char>| !m.contains_key(a))
}

/// Lists the attributes that a queue's options lack.
pub fn missing_attrs(options: &OptionMap, attrs: &Vec<String>) -> (r: Vec<String>)
    ensures
        views(r@) == missing_of(options.map(), views(attrs@)),
{
    let ghost m = options.map();
    let ghost pred = |a: Seq<char>| !m.contains_key(a);
    let mut missing: Vec<String> = Vec::new();
    let mut i: usize = 0;
    assert(views(attrs@.subrange(0, 0)) == Seq::<Seq<char>>::empty());
    proof {
        reveal(Seq::filter);
    }
    while i < attrs.len()
        invariant
            i <= attrs@.len(),
            m == options.map(),
            pred == (|a: Seq<char>| !m.contains_key(a)),
            views(missing@) == views(attrs@.subrange(0, i as int)).filter(pred),
        decreases attrs@.len() - i,
    {
        let ghost pre = views(attrs@.subrange(0, i as int));
        assert(views(attrs@.subrange(0, i + 1)) == pre.push(attrs@[i as int]@));
        proof {
            pre.lemma_filter_push(attrs@[i as int]@, pred);
        }
        if !options.contains_key(attrs[i].as_str()) {
            missing.push(attrs[i].clone());
        }
        i += 1;
    }
    assert(attrs@.subrange(0, i as int) == attrs@);
    missing
}

/// The options after recording an attribute's values: unchanged when there are none,
/// otherwise the values joined with commas under the attribute's name.
pub open spec fn recorded(m: Map<Seq<char>, Seq<char>>, name: Seq<char>, values: Seq<Seq<char>>) -> Map<
    Seq<char>,
    Seq<char>,
> {
    if values.len() == 0 {
        m
    } else {
        m.insert(name, joined(values))
    }
}

/// Stores the values fetched for a missing attribute in the options.
pub fn record_attr_values(options: &mut OptionMap, name: &str, values: &Vec<String>)
    ensures
        final(options).map() == recorded(old(options).map(), name@, views(values@)),
{
    if values.len() == 0 {
        return;
    }
    options.insert(owned(name), join_values(values));
}

/// The options after recording CUPS's reply for each asked attribute in turn: `replies[i]`
/// is what the reply holds of `names[i]`, absent when it lacks that attribute.
pub open spec fn recorded_replies(
    m: Map<Seq<char>, Seq<char>>,
    names: Seq<Seq<char>>,
    replies: Seq<Option<AttrReading>>,
) -> Map<Seq<char>, Seq<char>>
    decreases names.len(),
{
    if names.len() == 0 {
        m
    } else {
        let before = recorded_replies(m, names.drop_last(), replies.drop_last());
        match replies[names.len() - 1] {
            Some(a) => recorded(before, names.last(), attr_values_of(names.last(), a)),
            None => before,
        }
    }
}

/// Records CUPS's reply for each asked attribute, skipping the ones the reply lacks.
pub fn record_replies(
    options: &mut OptionMap,
    names: &Vec<String>,
    replies: &Vec<Option<AttrReading>>,
)
    requires
        names@.len() == replies@.len(),
    ensures
        final(options).map() == recorded_replies(old(options).map(), views(names@), replies@),
{
    let ghost m0 = options.map();
    let mut i: usize = 0;
    assert(views(names@).take(0) =~= Seq::<Seq<char>>::empty());
    while i < names.len()
        invariant
            i <= names@.len(),
            names@.len() == replies@.len(),
            options.map() == recorded_replies(m0, views(names@).take(i as int), replies@.take(i as int)),
        decreases names@.len() - i,
    {
        assert(views(names@).take(i + 1).drop_last() =~= views(names@).take(i as int));
        assert(replies@.take(i + 1).drop_last() =~= replies@.take(i as int));
        assert(views(names@).take(i + 1).last() == names@[i as int]@);
        assert(replies@.take(i + 1)[i as int] == replies@[i as int]);
        match &replies[i] {
            Some(reading) => {
                let values = attr_values(names[i].as_str(), reading);
                record_attr_values(options, names[i].as_str(), &values);
            },
            None => {},
        }
        i += 1;
    }
    assert(views(names@).take(i as int) =~= views(names@));
    assert(replies@.take(i as int) =~= replies@);
}

/// The attributes asked of CUPS for every queue.
pub open spec fn printer_attribute_names() -> Seq<Seq<char>> {
    seq![
        "printer-more-info"@,
        "printer-state"@,
        "printer-state-message"@,
        "printer-state-reasons"@,
        "printer-is-accepting-jobs"@,
        "printer-type"@,
        "printer-location"@,
        "printer-info"@,
        "printer-make-and-model"@,
        "device-uri"@,
        "marker-colors"@,
        "marker-levels"@,
        "marker-names"@,
        "marker-types"@,
        "media-default"@,
        "media-supported"@,
        "sides-default"@,
        "sides-supported"@,
        "printer-uuid"@,
    ]
}

/// The attributes asked of CUPS for every queue.
pub fn printer_attributes() -> (r: Vec<String>)
    ensures
        views(r@) == printer_attribute_names(),
{
    let mut v: Vec<String> = Vec::new();
    v.push(owned("printer-more-info"));
    v.push(owned("printer-state"));
    v.push(owned("printer-state-message"));
    v.push(owned("printer-state-reasons"));
    v.push(owned("printer-is-accepting-jobs"));
    v.push(owned("printer-type"));
    v.push(owned("printer-location"));
    v.push(owned("printer-info"));
    v.push(owned("printer-make-and-model"));
    v.push(owned("device-uri"));
    v.push(owned("marker-colors"));
    v.push(owned("marker-levels"));
    v.push(owned("marker-names"));
    v.push(owned("marker-types"));
    v.push(owned("media-default"));
    v.push(owned("media-supported"));
    v.push(owned("sides-default"));
    v.push(owned("sides-supported"));
    v.push(owned("printer-uuid"));
    assert(views(v@) == printer_attribute_names());
    v
}

} // verus!

verus! {

/// Every value of a comma-separated list is non-empty, trimmed, and holds no comma.
pub proof fn lemma_list_values_clean(s: Seq<char>)
    ensures
        forall|i: int|
            0 <= i < list_values(s).len() ==> (#[trigger] list_values(s)[i]).len() > 0
                && !list_values(s)[i].contains(',') && trim(list_values(s)[i]) == list_values(
                s,
            )[i],
    decreases s.len(),
{
    let i = find_char(s, ',', 0);
    lemma_find_either_bounds(s, ',', ',', 0);
    let head = trim(s.subrange(0, i));
    let lo = skip_ws(s.subrange(0, i), 0);
    lemma_skip_ws_bounds(s.subrange(0, i), 0);
    lemma_back_ws_bounds(s.subrange(0, i), lo, i);
    assert forall|k: int| 0 <= k < head.len() implies #[trigger] head[k] != ',' by {
        assert(head[k] == s[lo + k]);
    }
    if 0 <= i < s.len() {
        lemma_list_values_clean(s.subrange(i + 1, s.len() as int));
    }
    let tail = if 0 <= i < s.len() {
        list_values(s.subrange(i + 1, s.len() as int))
    } else {
        Seq::empty()
    };
    lemma_trim_idempotent(s.subrange(0, i));
    if head.len() > 0 {
        assert forall|j: int| 0 <= j < list_values(s).len() implies (#[trigger] list_values(s)[j]).len() > 0
            && !list_values(s)[j].contains(',') && trim(list_values(s)[j]) == list_values(s)[j] by {
            if j == 0 {
                assert(list_values(s)[j] == head);
            } else {
                assert(list_values(s)[j] == tail[j - 1]);
            }
        }
    }
}

} // verus!

verus! {

/// Reading one more string keeps the values read so far and adds the new one, trimmed, at
/// the end when it is not blank.
pub proof fn lemma_kept_strings_push(ss: Seq<Option<String>>, v: Option<String>)
    ensures
        (v is Some && trim(v->0@).len() > 0) ==> kept_strings(ss.push(v)) == kept_strings(
            ss,
        ).push(trim(v->0@)),
        !(v is Some && trim(v->0@).len() > 0) ==> kept_strings(ss.push(v)) == kept_strings(ss),
{
    assert(ss.push(v).drop_last() =~= ss);
}

/// The strings kept of two readings one after the other are those of the first, then those
/// of the second: values keep CUPS's index order.
pub proof fn lemma_kept_strings_concat(xs: Seq<Option<String>>, ys: Seq<Option<String>>)
    ensures
        kept_strings(xs + ys) == kept_strings(xs) + kept_strings(ys),
    decreases ys.len(),
{
    if ys.len() == 0 {
        assert(xs + ys =~= xs);
        assert(kept_strings(xs) + kept_strings(ys) =~= kept_strings(xs));
    } else {
        let y = ys.last();
        assert(xs + ys =~= (xs + ys.drop_last()).push(y));
        assert(ys =~= ys.drop_last().push(y));
        lemma_kept_strings_concat(xs, ys.drop_last());
        lemma_kept_strings_push(xs + ys.drop_last(), y);
        lemma_kept_strings_push(ys.drop_last(), y);
        assert(kept_strings(xs) + kept_strings(ys.drop_last()).push(trim(y->0@)) =~= (
        kept_strings(xs) + kept_strings(ys.drop_last())).push(trim(y->0@)));
    }
}

/// When every string CUPS reports is present and not blank, an attribute other than
/// `printer-is-accepting-jobs` has exactly those strings, trimmed, in CUPS's index order.
pub proof fn lemma_attr_strings_in_order(name: Seq<char>, a: AttrReading)
    requires
        name != "printer-is-accepting-jobs"@,
        a.strings@.len() > 0,
        forall|i: int|
            0 <= i < a.strings@.len() ==> (#[trigger] a.strings@[i] matches Some(s) && trim(s@).len()
                > 0),
    ensures
        attr_values_of(name, a) == a.strings@.map_values(|o: Option<String>| trim(o->0@)),
{
    lemma_kept_all_present(a.strings@);
}

proof fn lemma_kept_all_present(ss: Seq<Option<String>>)
    requires
        forall|i: int|
            0 <= i < ss.len() ==> (#[trigger] ss[i] matches Some(s) && trim(s@).len() > 0),
    ensures
        kept_strings(ss) == ss.map_values(|o: Option<String>| trim(o->0@)),
    decreases ss.len(),
{
    if ss.len() > 0 {
        let init = ss.drop_last();
        assert forall|i: int| 0 <= i < init.len() implies (#[trigger] init[i] matches Some(s) && trim(
            s@,
        ).len() > 0) by {
            assert(init[i] == ss[i]);
        }
        lemma_kept_all_present(init);
        assert(ss[ss.len() - 1] matches Some(s) && trim(s@).len() > 0);
        assert(ss.map_values(|o: Option<String>| trim(o->0@)) =~= init.map_values(
            |o: Option<String>| trim(o->0@),
        ).push(trim(ss.last()->0@)));
    }
}

/// A queue is a printer class exactly when its `printer-type` is a number (up to
/// `u32::MAX`) that is odd, CUPS's class flag being the lowest bit.
pub proof fn lemma_class_is_lowest_bit(m: Map<Seq<char>, Seq<char>>)
    ensures
        is_class(m) <==> (m.contains_key("printer-type"@) && parse_unsigned(
            m["printer-type"@],
            0xffff_ffff,
        ) is Some && parse_unsigned(m["printer-type"@], 0xffff_ffff)->0 % 2 == 1),
{
    if m.contains_key("printer-type"@) {
        match parse_unsigned(m["printer-type"@], 0xffff_ffff) {
            Some(t) => {
                let u = t as u32;
                assert(u == t);
                assert((u & 1u32 != 0) == (u % 2 == 1)) by (bit_vector);
            },
            None => {},
        }
    }
}

/// A queue without a non-empty `printer-info` is named by its full name, one with such a
/// description by the description; so the entry's name is empty only when both are.
pub proof fn lemma_entry_name(d: QueueRecord, e: PrinterEntry)
    requires
        entry_from(d, e),
    ensures
        (d.info is None || d.info->0@.len() == 0) ==> e.name@ == d.full_name@,
        (d.info is Some && d.info->0@.len() > 0) ==> e.name@ == d.info->0@,
        d.full_name@.len() > 0 ==> e.name@.len() > 0,
        e.id@ == d.full_name@,
{
}

} // verus!

verus! {

/// Splitting a list at a comma gives the values before it, then those after it: values keep
/// their order.
pub proof fn lemma_list_values_concat(a: Seq<char>, b: Seq<char>)
    ensures
        list_values(a + seq![','] + b) == list_values(a) + list_values(b),
    decreases a.len(),
{
    let s = a + seq![','] + b;
    let i = find_char(a, ',', 0);
    lemma_find_either_bounds(a, ',', ',', 0);
    lemma_find_either_bounds(s, ',', ',', 0);
    assert forall|k: int| 0 <= k < i implies #[trigger] s[k] != ',' by {
        assert(s[k] == a[k]);
    }
    if i < a.len() {
        assert(s[i] == ',');
        assert(find_char(s, ',', 0) == i) by {
            let j = find_char(s, ',', 0);
            if j < i {
                assert(s[j] == a[j]);
            }
        }
        assert(s.subrange(0, i) =~= a.subrange(0, i));
        let a2 = a.subrange(i + 1, a.len() as int);
        assert(s.subrange(i + 1, s.len() as int) =~= a2 + seq![','] + b);
        lemma_list_values_concat(a2, b);
        if trim(a.subrange(0, i)).len() > 0 {
            assert(seq![trim(a.subrange(0, i))] + (list_values(a2) + list_values(b)) =~= (seq![
                trim(a.subrange(0, i)),
            ] + list_values(a2)) + list_values(b));
        }
    } else {
        assert(s[a.len() as int] == ',');
        assert(find_char(s, ',', 0) == a.len()) by {
            let j = find_char(s, ',', 0);
            if j < a.len() {
                assert(s[j] == a[j]);
            }
        }
        assert(s.subrange(0, a.len() as int) =~= a);
        assert(a.subrange(0, a.len() as int) =~= a);
        assert(s.subrange(a.len() as int + 1, s.len() as int) =~= b);
        if trim(a).len() > 0 {
            assert(list_values(a) =~= seq![trim(a)]);
        } else {
            assert(list_values(a) =~= Seq::<Seq<char>>::empty());
        }
        assert(list_values(a) + list_values(b) =~= if trim(a).len() > 0 {
            seq![trim(a)] + list_values(b)
        } else {
            list_values(b)
        });
    }
}

/// Joining two non-empty lists one after the other puts a comma between their joins: the
/// values keep their order.
pub proof fn lemma_joined_concat(xs: Seq<Seq<char>>, ys: Seq<Seq<char>>)
    requires
        xs.len() > 0,
        ys.len() > 0,
    ensures
        joined(xs + ys) == joined(xs) + seq![','] + joined(ys),
        joined(seq![xs[0]]) == xs[0],
    decreases ys.len(),
{
    assert(seq![xs[0]].len() == 1);
    if ys.len() == 1 {
        assert((xs + ys).drop_last() =~= xs);
        assert((xs + ys).last() == ys[0]);
        assert(joined(ys) == ys[0]);
    } else {
        assert((xs + ys).drop_last() =~= xs + ys.drop_last());
        assert((xs + ys).last() == ys.last());
        lemma_joined_concat(xs, ys.drop_last());
        assert(joined(xs) + seq![','] + joined(ys.drop_last()) + seq![','] + ys.last() =~= joined(xs)
            + seq![','] + (joined(ys.drop_last()) + seq![','] + ys.last()));
    }
}

/// A queue's own `printer-more-info` decides its web page whatever its device URI says; only
/// without it does the device URI give the page.
pub proof fn lemma_web_page_priority(m: Map<Seq<char>, Seq<char>>, device_uri: Seq<char>)
    ensures
        m.contains_key("printer-more-info"@) ==> web_page_for(m.insert("device-uri"@, device_uri))
            == web_page_for(m),
        !m.contains_key("printer-more-info"@) ==> web_page_for(m.insert("device-uri"@, device_uri))
            == web_page_of(device_uri),
{
    reveal_strlit("printer-more-info");
    reveal_strlit("device-uri");
    assert("printer-more-info"@ != "device-uri"@) by {
        assert("printer-more-info"@.len() != "device-uri"@.len());
    }
}

} // verus!
