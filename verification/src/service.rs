//! Decisions of the printer service that sit between its requests and CUPS.

use vstd::prelude::*;

use crate::options::OptionMap;
use crate::queues::views;
use crate::text::{
    is_digit, lemma_nat_text_digits, lemma_nat_text_injective, lemma_text_lt_asymmetric,
    lemma_text_lt_irreflexive, lemma_text_lt_total, lemma_text_lt_transitive, nat_text, nat_to_text,
    owned, push_char, text_eq, text_less, text_lt,
};
use crate::types::{opt_view, Error, PrinterEntry};

verus! {

/// The queue URI of the first printer with id `id`, or `PrinterNotFound`.
pub open spec fn printer_uri_for(printers: Seq<PrinterEntry>, id: Seq<char>) -> Result<
    Seq<char>,
    Error,
> {
    if exists|i: int| 0 <= i < printers.len() && #[trigger] printers[i].id@ == id {
        let i = choose|i: int|
            0 <= i < printers.len() && #[trigger] printers[i].id@ == id && forall|j: int|
                0 <= j < i ==> #[trigger] printers[j].id@ != id;
        Ok(printers[i].printer_uri@)
    } else {
        Err(Error::PrinterNotFound)
    }
}

/// Looks up the queue URI of the printer with id `id`.
pub fn find_printer_uri(printers: &Vec<PrinterEntry>, id: &str) -> (r: Result<String, Error>)
    ensures
        match (r, printer_uri_for(printers@, id@)) {
            (Ok(u), Ok(v)) => u@ == v,
            (Err(e), Err(f)) => e == f,
            _ => false,
        },
{
    let mut i: usize = 0;
    while i < printers.len()
        invariant
            i <= printers@.len(),
            forall|j: int| 0 <= j < i ==> #[trigger] printers@[j].id@ != id@,
        decreases printers@.len() - i,
    {
        if text_eq(printers[i].id.as_str(), id) {
            let ghost k = choose|k: int|
                0 <= k < printers@.len() && #[trigger] printers@[k].id@ == id@ && forall|j: int|
                    0 <= j < k ==> #[trigger] printers@[j].id@ != id@;
            assert(0 <= i < printers@.len() && printers@[i as int].id@ == id@ && forall|j: int|
                0 <= j < i ==> #[trigger] printers@[j].id@ != id@);
            proof {
                if k < i {
                } else if k > i {
                    assert(printers@[i as int].id@ != id@);
                }
            }
            return Ok(printers[i].printer_uri.clone());
        }
        i += 1;
    }
    Err(Error::PrinterNotFound)
}

/// Which jobs a job listing asks for.
#[derive(Clone, Copy, Debug, PartialEq, Eq, Structural)]
pub enum JobFilter {
    Active,
    Completed,
    All,
}

/// A job listing as CUPS is asked for it.
pub struct JobQuery {
    /// The queue to list, or every queue.
    pub printer: Option<String>,
    pub filter: JobFilter,
}

/// The filter a job listing's filter word selects; unknown words select every job.
pub open spec fn filter_of(word: Seq<char>) -> JobFilter {
    if word == "active"@ {
        JobFilter::Active
    } else if word == "completed"@ {
        JobFilter::Completed
    } else {
        JobFilter::All
    }
}

/// Reads a job listing request: an empty printer id lists every queue.
pub fn job_query(printer_id: &str, filter: &str) -> (r: JobQuery)
    ensures
        opt_view(r.printer) == (if printer_id@.len() == 0 {
            None
        } else {
            Some(printer_id@)
        }),
        r.filter == filter_of(filter@),
{
    let printer = if printer_id.unicode_len() == 0 {
        None
    } else {
        Some(owned(printer_id))
    };
    let filter = if text_eq(filter, "active") {
        JobFilter::Active
    } else if text_eq(filter, "completed") {
        JobFilter::Completed
    } else {
        JobFilter::All
    };
    JobQuery { printer, filter }
}

/// Data kept for a queue that CUPS does not store itself.
#[derive(Clone, Debug)]
pub struct QueueMetadata {
    pub device_uuid: Option<String>,
    pub printer_more_info: Option<String>,
}

/// The options of a queue once its stored metadata is applied.
pub open spec fn with_metadata(m: Map<Seq<char>, Seq<char>>, meta: QueueMetadata) -> Map<
    Seq<char>,
    Seq<char>,
> {
    let m1 = match meta.device_uuid {
        Some(u) => m.insert("device-uuid"@, u@),
        None => m,
    };
    match meta.printer_more_info {
        Some(p) => m1.insert("printer-more-info"@, p@),
        None => m1,
    }
}

/// Copies stored metadata of a queue into its options.
pub fn apply_queue_metadata(options: &mut OptionMap, metadata: &QueueMetadata)
    ensures
        final(options).map() == with_metadata(old(options).map(), *metadata),
{
    match &metadata.device_uuid {
        Some(u) => options.insert(owned("device-uuid"), u.clone()),
        None => {},
    }
    match &metadata.printer_more_info {
        Some(p) => options.insert(owned("printer-more-info"), p.clone()),
        None => {},
    }
}

/// A driverless device found on the network that has no queue yet.
#[derive(Clone, Debug)]
pub struct DiscoveredPrinter {
    pub id: String,
    pub name: String,
    pub device_uri: String,
    pub location: String,
    pub model: String,
}

/// Describes a discovered destination; without a device URI there is nothing to add.
pub fn discovered_printer(
    full_name: String,
    info: Option<String>,
    location: Option<String>,
    model: Option<String>,
    device_uri: Option<String>,
) -> (r: Option<DiscoveredPrinter>)
    ensures
        device_uri is None <==> r is None,
        r matches Some(p) ==> {
            &&& p.id@ == full_name@
            &&& p.name@ == (match info {
                Some(i) if i@.len() > 0 => i@,
                _ => full_name@,
            })
            &&& Some(p.device_uri@) == opt_view(device_uri)
            &&& p.location@ == (match location {
                Some(l) => l@,
                None => Seq::empty(),
            })
            &&& p.model@ == (match model {
                Some(m) => m@,
                None => Seq::empty(),
            })
        },
{
    let device_uri = match device_uri {
        Some(d) => d,
        None => return None,
    };
    let name = match info {
        Some(i) => if i.as_str().unicode_len() > 0 {
            i
        } else {
            full_name.clone()
        },
        None => full_name.clone(),
    };
    let location = match location {
        Some(l) => l,
        None => String::new(),
    };
    let model = match model {
        Some(m) => m,
        None => String::new(),
    };
    Some(DiscoveredPrinter { id: full_name, name, device_uri, location, model })
}

/// How the value of a printer attribute is tagged in an IPP request.
#[derive(Clone, Copy, Debug, PartialEq, Eq, Structural)]
pub enum ValueKind {
    Uri,
    Text,
}

/// One printer attribute of an IPP request.
pub struct RequestAttribute {
    pub kind: ValueKind,
    pub name: String,
    pub value: String,
}

/// The printer attributes that create a queue: device URI, description, and the location
/// when there is one.
pub fn creation_attributes(device_uri: &str, info: &str, location: &str) -> (r: Vec<RequestAttribute>)
    ensures
        r@.len() == (if location@.len() == 0 {
            2int
        } else {
            3int
        }),
        r@[0].kind == ValueKind::Uri && r@[0].name@ == "device-uri"@ && r@[0].value@ == device_uri@,
        r@[1].kind == ValueKind::Text && r@[1].name@ == "printer-info"@ && r@[1].value@ == info@,
        location@.len() > 0 ==> r@[2].kind == ValueKind::Text && r@[2].name@ == "printer-location"@
            && r@[2].value@ == location@,
{
    let mut attrs: Vec<RequestAttribute> = Vec::new();
    attrs.push(
        RequestAttribute { kind: ValueKind::Uri, name: owned("device-uri"), value: owned(device_uri) },
    );
    attrs.push(
        RequestAttribute { kind: ValueKind::Text, name: owned("printer-info"), value: owned(info) },
    );
    if location.unicode_len() > 0 {
        attrs.push(
            RequestAttribute {
                kind: ValueKind::Text,
                name: owned("printer-location"),
                value: owned(location),
            },
        );
    }
    attrs
}

/// The URI under which a new local queue is made permanent.
pub fn permanent_printer_uri(queue_name: &str) -> (r: String)
    ensures
        r@ == "ipp://localhost/printers/"@ + queue_name@,
{
    let mut out = owned("ipp://localhost/printers/");
    out.append(queue_name);
    out
}

} // verus!

verus! {

/// Chars that queue names keep; every other char becomes `_`.
pub open spec fn queue_char(c: char) -> char {
    if ('a' <= c && c <= 'z') || ('A' <= c && c <= 'Z') || ('0' <= c && c <= '9') || c == '-' || c
        == '_' || c == '.' {
        c
    } else {
        '_'
    }
}

/// A char that CUPS accepts in a queue name.
pub open spec fn is_queue_char(c: char) -> bool {
    ('a' <= c && c <= 'z') || ('A' <= c && c <= 'Z') || ('0' <= c && c <= '9') || c == '-' || c
        == '_' || c == '.'
}

/// A non-empty name made of chars CUPS accepts in queue names.
pub open spec fn valid_queue_name(s: Seq<char>) -> bool {
    s.len() > 0 && forall|i: int| 0 <= i < s.len() ==> is_queue_char(#[trigger] s[i])
}

/// The names `available_queue_name` gives are valid queue names.
pub proof fn lemma_queue_names_valid(name: Seq<char>, k: nat)
    ensures
        valid_queue_name(base_queue_name(name)),
        valid_queue_name(numbered_name(base_queue_name(name), k)),
{
    let b = base_queue_name(name);
    let s = name.map_values(|c: char| queue_char(c));
    if s.len() == 0 {
        reveal_strlit("printer");
        assert(b == seq!['p', 'r', 'i', 'n', 't', 'e', 'r']);
    } else {
        assert forall|i: int| 0 <= i < b.len() implies is_queue_char(#[trigger] b[i]) by {
            assert(b[i] == queue_char(name[i]));
        }
    }
    lemma_nat_text_digits(k);
    let n = numbered_name(b, k);
    assert forall|i: int| 0 <= i < n.len() implies is_queue_char(#[trigger] n[i]) by {
        if i < b.len() {
            assert(n[i] == b[i]);
        } else if i == b.len() {
            assert(n[i] == '_');
        } else {
            assert(n[i] == nat_text(k)[i - b.len() - 1]);
            assert(is_digit(nat_text(k)[i - b.len() - 1]));
        }
    }
}

/// The queue name a device name suggests: its chars made safe, `printer` when empty.
pub open spec fn base_queue_name(name: Seq<char>) -> Seq<char> {
    let s = name.map_values(|c: char| queue_char(c));
    if s.len() == 0 {
        "printer"@
    } else {
        s
    }
}

/// The `k`-th alternative to a taken queue name.
pub open spec fn numbered_name(base: Seq<char>, k: nat) -> Seq<char> {
    base + seq!['_'] + nat_text(k)
}

fn is_taken(names: &Vec<String>, candidate: &str) -> (r: bool)
    ensures
        r == views(names@).contains(candidate@),
{
    let mut i: usize = 0;
    while i < names.len()
        invariant
            i <= names@.len(),
            forall|j: int| 0 <= j < i ==> (#[trigger] names@[j])@ != candidate@,
        decreases names@.len() - i,
    {
        if text_eq(names[i].as_str(), candidate) {
            assert(views(names@)[i as int] == candidate@);
            return true;
        }
        i += 1;
    }
    assert forall|j: int| 0 <= j < views(names@).len() implies views(names@)[j] != candidate@ by {
        assert(views(names@)[j] == names@[j]@);
    }
    false
}

proof fn lemma_numbered_distinct(base: Seq<char>, j: nat, k: nat)
    ensures
        numbered_name(base, k) != base,
        numbered_name(base, j) == numbered_name(base, k) ==> j == k,
{
    lemma_nat_text_digits(k);
    assert(numbered_name(base, k).len() > base.len());
    if numbered_name(base, j) == numbered_name(base, k) {
        lemma_nat_text_digits(j);
        let n = base.len() + 1;
        assert(numbered_name(base, j).subrange(n as int, numbered_name(base, j).len() as int)
            == nat_text(j));
        assert(numbered_name(base, k).subrange(n as int, numbered_name(base, k).len() as int)
            == nat_text(k));
        lemma_nat_text_injective(j, k);
    }
}

/// `r` is the queue name chosen for `name` beside the `configured` names: a valid name that
/// is not taken, the sanitized name itself when that is free, else its first free numbered
/// form.
pub open spec fn chosen_queue_name(r: Seq<char>, name: Seq<char>, configured: Seq<Seq<char>>) -> bool {
    &&& !configured.contains(r)
    &&& valid_queue_name(r)
    &&& (r == base_queue_name(name) <==> !configured.contains(base_queue_name(name)))
    &&& r != base_queue_name(name) ==> exists|k: nat|
        k >= 2 && r == numbered_name(base_queue_name(name), k) && forall|j: nat|
            2 <= j < k ==> configured.contains(#[trigger] numbered_name(base_queue_name(name), j))
}

/// Produces a valid queue name that does not collide with configured queues.
pub fn available_queue_name(name: &str, configured: &Vec<String>) -> (r: String)
    requires
        configured@.len() < 0x7fff_ffff,
    ensures
        chosen_queue_name(r@, name@, views(configured@)),
{
    let n = name.unicode_len();
    let mut sanitized = String::new();
    let mut i: usize = 0;
    while i < n
        invariant
            n == name@.len(),
            i <= n,
            sanitized@ == name@.subrange(0, i as int).map_values(|c: char| queue_char(c)),
        decreases n - i,
    {
        let c = name.get_char(i);
        let kept = if ('a' <= c && c <= 'z') || ('A' <= c && c <= 'Z') || ('0' <= c && c <= '9')
            || c == '-' || c == '_' || c == '.' {
            c
        } else {
            '_'
        };
        push_char(&mut sanitized, kept);
        assert(name@.subrange(0, i + 1).map_values(|c: char| queue_char(c)) =~= name@.subrange(
            0,
            i as int,
        ).map_values(|c: char| queue_char(c)).push(queue_char(c)));
        i += 1;
    }
    assert(name@.subrange(0, n as int) == name@);
    let base = if sanitized.as_str().unicode_len() == 0 {
        owned("printer")
    } else {
        sanitized
    };
    let ghost b = base@;
    assert(b == base_queue_name(name@));
    proof {
        lemma_queue_names_valid(name@, 0);
    }
    if !is_taken(configured, base.as_str()) {
        return base;
    }
    let ghost taken = views(configured@).to_set();
    proof {
        views(configured@).lemma_cardinality_of_set();
        assert(taken.contains(b));
    }
    let ghost mut tried: Set<Seq<char>> = set![b];
    let mut suffix: u64 = 2;
    loop
        invariant
            configured@.len() < 0x7fff_ffff,
            base@ == b,
            b == base_queue_name(name@),
            taken == views(configured@).to_set(),
            taken.finite(),
            taken.len() <= configured@.len(),
            views(configured@).contains(b),
            2 <= suffix,
            tried.finite(),
            tried.len() == suffix - 1,
            tried.subset_of(taken),
            forall|x: Seq<char>|
                #[trigger] tried.contains(x) ==> x == b || exists|j: nat|
                    2 <= j < suffix && x == numbered_name(b, j),
            forall|j: nat| 2 <= j < suffix ==> views(configured@).contains(#[trigger] numbered_name(b, j)),
        decreases taken.len() - tried.len(),
    {
        proof {
            vstd::set_lib::lemma_len_subset(tried, taken);
        }
        let digits = nat_to_text(suffix);
        let mut candidate = base.clone();
        push_char(&mut candidate, '_');
        candidate.append(digits.as_str());
        assert(candidate@ == numbered_name(b, suffix as nat));
        if !is_taken(configured, candidate.as_str()) {
            proof {
                lemma_numbered_distinct(b, suffix as nat, suffix as nat);
                lemma_queue_names_valid(name@, suffix as nat);
            }
            return candidate;
        }
        proof {
            let c = candidate@;
            assert(!tried.contains(c)) by {
                if tried.contains(c) {
                    lemma_numbered_distinct(b, suffix as nat, suffix as nat);
                    if c != b {
                        let j = choose|j: nat| 2 <= j < suffix && c == numbered_name(b, j);
                        lemma_numbered_distinct(b, j, suffix as nat);
                    }
                }
            }
            assert(taken.contains(c));
            tried = tried.insert(c);
            vstd::set_lib::lemma_len_subset(tried, taken);
        }
        suffix = suffix + 1;
    }
}

} // verus!

verus! {

/// What the service reads of a destination that CUPS discovered on the network.
#[derive(Clone, Debug)]
pub struct DiscoveredRecord {
    /// The full name the device is listed under.
    pub id: String,
    pub name: String,
    pub info: Option<String>,
    pub location: Option<String>,
    pub device_uri: Option<String>,
}

/// The local queue that adding a discovered device creates.
pub struct NewQueue {
    pub queue_name: String,
    pub device_uri: String,
    pub info: String,
    pub location: String,
}

/// Index of the first discovered device at or after `i` listed as `id`, or the count.
pub open spec fn discovered_index(ds: Seq<DiscoveredRecord>, id: Seq<char>, i: int) -> int
    decreases ds.len() - i,
{
    if i < 0 || i >= ds.len() {
        ds.len() as int
    } else if ds[i].id@ == id {
        i
    } else {
        discovered_index(ds, id, i + 1)
    }
}

/// The queue that adding the discovered device `id` creates: `PrinterNotFound` when no
/// device is listed as `id`, `CupsFailed` when it has no device URI, else a free queue name
/// made from its name, its device URI, its description (its name when it has none) and its
/// location (empty when it has none).
pub open spec fn queue_plan_holds(
    r: Result<NewQueue, Error>,
    id: Seq<char>,
    discovered: Seq<DiscoveredRecord>,
    configured: Seq<Seq<char>>,
) -> bool {
    let k = discovered_index(discovered, id, 0);
    if k >= discovered.len() {
        r == Err::<NewQueue, Error>(Error::PrinterNotFound)
    } else {
        let d = discovered[k];
        match d.device_uri {
            None => r == Err::<NewQueue, Error>(Error::CupsFailed),
            Some(u) => r matches Ok(q) && {
                &&& q.device_uri@ == u@
                &&& chosen_queue_name(q.queue_name@, d.name@, configured)
                &&& q.info@ == (match d.info {
                    Some(i) => i@,
                    None => d.name@,
                })
                &&& q.location@ == (match d.location {
                    Some(l) => l@,
                    None => Seq::empty(),
                })
            },
        }
    }
}

proof fn lemma_discovered_index_bounds(ds: Seq<DiscoveredRecord>, id: Seq<char>, i: int)
    requires
        0 <= i <= ds.len(),
    ensures
        i <= discovered_index(ds, id, i) <= ds.len(),
        discovered_index(ds, id, i) < ds.len() ==> ds[discovered_index(ds, id, i)].id@ == id,
    decreases ds.len() - i,
{
    if i < ds.len() && ds[i].id@ != id {
        lemma_discovered_index_bounds(ds, id, i + 1);
    }
}

/// Decides what adding the discovered device `printer_id` creates, beside the names of the
/// configured queues.
pub fn discovered_queue_plan(
    printer_id: &str,
    discovered: &Vec<DiscoveredRecord>,
    configured: &Vec<String>,
) -> (r: Result<NewQueue, Error>)
    requires
        configured@.len() < 0x7fff_ffff,
    ensures
        queue_plan_holds(r, printer_id@, discovered@, views(configured@)),
{
    let mut i: usize = 0;
    while i < discovered.len() && !text_eq(discovered[i].id.as_str(), printer_id)
        invariant
            i <= discovered@.len(),
            discovered_index(discovered@, printer_id@, i as int) == discovered_index(
                discovered@,
                printer_id@,
                0,
            ),
        decreases discovered@.len() - i,
    {
        i += 1;
    }
    proof {
        lemma_discovered_index_bounds(discovered@, printer_id@, i as int);
    }
    if i >= discovered.len() {
        return Err(Error::PrinterNotFound);
    }
    let d = &discovered[i];
    let device_uri = match &d.device_uri {
        Some(u) => u.clone(),
        None => return Err(Error::CupsFailed),
    };
    let queue_name = available_queue_name(d.name.as_str(), configured);
    let info = match &d.info {
        Some(v) => v.clone(),
        None => d.name.clone(),
    };
    let location = match &d.location {
        Some(l) => l.clone(),
        None => String::new(),
    };
    Ok(NewQueue { queue_name, device_uri, info, location })
}

} // verus!

verus! {

/// Discovered devices ordered by name.
pub open spec fn sorted_by_name(q: Seq<DiscoveredPrinter>) -> bool {
    forall|i: int, j: int|
        0 <= i < j < q.len() ==> !text_lt(#[trigger] q[j].name@, #[trigger] q[i].name@)
}

/// Selects the discovered devices whose name is `k`.
pub open spec fn with_name(k: Seq<char>) -> spec_fn(DiscoveredPrinter) -> bool {
    |e: DiscoveredPrinter| e.name@ == k
}

/// `out` is `inp` sorted by name, devices with equal names kept in their order.
pub open spec fn sorted_by_name_of(out: Seq<DiscoveredPrinter>, inp: Seq<DiscoveredPrinter>) -> bool {
    &&& sorted_by_name(out)
    &&& forall|k: Seq<char>| #[trigger] out.filter(with_name(k)) == inp.filter(with_name(k))
    &&& out.to_multiset() == inp.to_multiset()
}

proof fn lemma_name_filter_single(x: DiscoveredPrinter, k: Seq<char>)
    ensures
        seq![x].filter(with_name(k)) == (if x.name@ == k {
            seq![x]
        } else {
            Seq::<DiscoveredPrinter>::empty()
        }),
{
    Seq::<DiscoveredPrinter>::empty().lemma_filter_push(x, with_name(k));
    assert(Seq::<DiscoveredPrinter>::empty().push(x) == seq![x]);
    reveal(Seq::filter);
    assert(Seq::<DiscoveredPrinter>::empty().filter(with_name(k))
        == Seq::<DiscoveredPrinter>::empty());
}

/// Orders discovered devices by name, keeping devices with equal names in their order.
pub fn sort_discovered_by_name(printers: Vec<DiscoveredPrinter>) -> (r: Vec<DiscoveredPrinter>)
    ensures
        sorted_by_name_of(r@, printers@),
{
    broadcast use vstd::seq_lib::group_to_multiset_ensures;

    let ghost input = printers@;
    let mut rest = printers;
    let mut out: Vec<DiscoveredPrinter> = Vec::new();
    let ghost mut n: int = 0;
    assert(input.take(0) == Seq::<DiscoveredPrinter>::empty());
    proof {
        reveal(Seq::filter);
    }
    while rest.len() > 0
        invariant
            0 <= n <= input.len(),
            rest@ == input.skip(n),
            sorted_by_name(out@),
            forall|k: Seq<char>|
                #[trigger] out@.filter(with_name(k)) == input.take(n).filter(with_name(k)),
            out@.to_multiset() == input.take(n).to_multiset(),
        decreases rest@.len(),
    {
        let x = rest.remove(0);
        assert(x == input[n]);
        assert(input.take(n + 1) == input.take(n).push(x));
        assert(rest@ == input.skip(n + 1));
        let mut p: usize = 0;
        while p < out.len() && !text_less(x.name.as_str(), out[p].name.as_str())
            invariant
                p <= out@.len(),
                forall|j: int| 0 <= j < p ==> !text_lt(x.name@, #[trigger] out@[j].name@),
            decreases out@.len() - p,
        {
            p += 1;
        }
        let ghost old_out = out@;
        proof {
            assert forall|j: int| p <= j < old_out.len() implies text_lt(
                x.name@,
                #[trigger] old_out[j].name@,
            ) by {
                if j > p {
                    assert(!text_lt(old_out[j].name@, old_out[p as int].name@));
                    lemma_text_lt_total(old_out[j].name@, old_out[p as int].name@);
                    if old_out[j].name@ != old_out[p as int].name@ {
                        lemma_text_lt_transitive(x.name@, old_out[p as int].name@, old_out[j].name@);
                    }
                }
            }
        }
        out.insert(p, x);
        proof {
            let s = out@;
            let front = old_out.subrange(0, p as int);
            let back = old_out.subrange(p as int, old_out.len() as int);
            assert(s == front + seq![x] + back);
            assert(old_out == front + back);
            assert(sorted_by_name(s)) by {
                assert forall|i: int, j: int| 0 <= i < j < s.len() implies !text_lt(
                    #[trigger] s[j].name@,
                    #[trigger] s[i].name@,
                ) by {
                    if j < p {
                        assert(s[i] == old_out[i] && s[j] == old_out[j]);
                    } else if j == p {
                        assert(s[i] == old_out[i]);
                    } else if i == p {
                        assert(s[j] == old_out[j - 1]);
                        lemma_text_lt_asymmetric(x.name@, old_out[j - 1].name@);
                    } else if i < p {
                        assert(s[i] == old_out[i] && s[j] == old_out[j - 1]);
                    } else {
                        assert(s[i] == old_out[i - 1] && s[j] == old_out[j - 1]);
                    }
                }
            }
            assert forall|k: Seq<char>| #[trigger] s.filter(with_name(k)) == input.take(n + 1).filter(
                with_name(k),
            ) by {
                Seq::filter_distributes_over_add(front + seq![x], back, with_name(k));
                Seq::filter_distributes_over_add(front, seq![x], with_name(k));
                Seq::filter_distributes_over_add(front, back, with_name(k));
                lemma_name_filter_single(x, k);
                input.take(n).lemma_filter_push(x, with_name(k));
                if x.name@ == k {
                    assert forall|j: int| 0 <= j < back.len() implies !with_name(k)(
                        #[trigger] back[j],
                    ) by {
                        assert(text_lt(x.name@, old_out[p + j].name@));
                        lemma_text_lt_irreflexive(x.name@);
                    }
                    assert(back.all(|e: DiscoveredPrinter| !with_name(k)(e)));
                    back.lemma_all_neg_filter_empty(with_name(k));
                    assert(back.filter(with_name(k)) == Seq::<DiscoveredPrinter>::empty());
                }
            }
            vstd::seq_lib::to_multiset_insert(old_out, p as int, x);
            assert(old_out.insert(p as int, x) == s);
            vstd::seq_lib::to_multiset_build(input.take(n), x);
            assert(s.to_multiset() == input.take(n + 1).to_multiset());
            n = n + 1;
        }
    }
    assert(input.take(n) == input);
    out
}

} // verus!
