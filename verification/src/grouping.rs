//! Grouping of printer queues by the physical device they belong to.

use vstd::prelude::*;

use crate::options::OptionMap;
use crate::text::{
    ascii_lower, is_lower, lemma_text_lt_asymmetric, lemma_text_lt_irreflexive, lemma_text_lt_total,
    lemma_text_lt_transitive, text_eq, text_less, text_lt, to_ascii_lower, trim, trim_str,
};
use crate::types::{opt_str_view, opt_view, GroupedDevice, PrinterEntry};
use crate::uri::{endpoint_of, identity_uri, lemma_endpoint_host_lower, parse_uri_endpoint, uri_identity};

verus! {

/// What identifies a physical device: a UUID, a host and port, a normalized URI.
pub struct IdentityView {
    pub uuid: Option<Seq<char>>,
    pub endpoint: Option<(Seq<char>, u16)>,
    pub uri: Option<Seq<char>>,
}

/// The identity of a physical device as it was read from a printer queue.
#[derive(Debug, Clone)]
pub struct DeviceIdentity {
    uuid: Option<String>,
    endpoint: Option<(String, u16)>,
    uri: Option<String>,
}

/// View of an optional host and port.
pub open spec fn endpoint_view(e: Option<(String, u16)>) -> Option<(Seq<char>, u16)> {
    match e {
        Some((h, p)) => Some((h@, p)),
        None => None,
    }
}

/// A UUID as identities hold it: trimmed and lower-cased, absent when blank.
pub open spec fn normalized_uuid(u: Seq<char>) -> Option<Seq<char>> {
    if trim(u).len() > 0 {
        Some(ascii_lower(trim(u)))
    } else {
        None
    }
}

/// The identity built from a UUID, a device URI and a fallback queue URI.
pub open spec fn identity_model(
    uuid: Option<Seq<char>>,
    device_uri: Option<Seq<char>>,
    fallback_uri: Option<Seq<char>>,
) -> IdentityView {
    IdentityView {
        uuid: match uuid {
            Some(u) => normalized_uuid(u),
            None => None,
        },
        endpoint: match device_uri {
            Some(d) => endpoint_of(d),
            None => None,
        },
        uri: match device_uri {
            Some(d) => Some(identity_uri(d)),
            None => match fallback_uri {
                Some(f) => Some(identity_uri(f)),
                None => None,
            },
        },
    }
}

/// Two identities name the same device: UUIDs decide when either has one, then host and
/// port when both have them, then the normalized URI when present.
pub open spec fn identities_match(a: IdentityView, b: IdentityView) -> bool {
    if a.uuid is Some || b.uuid is Some {
        a.uuid == b.uuid
    } else if a.endpoint is Some && b.endpoint is Some {
        a.endpoint == b.endpoint
    } else {
        a.uri is Some && a.uri == b.uri
    }
}

/// `a` with every field it lacks taken from `b`.
pub open spec fn fill_missing(a: IdentityView, b: IdentityView) -> IdentityView {
    IdentityView {
        uuid: if a.uuid is None {
            b.uuid
        } else {
            a.uuid
        },
        endpoint: if a.endpoint is None {
            b.endpoint
        } else {
            a.endpoint
        },
        uri: if a.uri is None {
            b.uri
        } else {
            a.uri
        },
    }
}

/// A trimmed option value, absent when the option is missing or blank.
pub open spec fn non_empty(m: Map<Seq<char>, Seq<char>>, k: Seq<char>) -> Option<Seq<char>> {
    if m.contains_key(k) && trim(m[k]).len() > 0 {
        Some(trim(m[k]))
    } else {
        None
    }
}

/// The device identity that a queue's options give.
pub open spec fn entry_identity(p: PrinterEntry) -> IdentityView {
    let m = p.options.map();
    identity_model(
        non_empty(m, "printer-uuid"@),
        non_empty(m, "device-uri"@),
        non_empty(m, "printer-uri-supported"@),
    )
}

impl View for DeviceIdentity {
    type V = IdentityView;

    closed spec fn view(&self) -> IdentityView {
        IdentityView {
            uuid: opt_view(self.uuid),
            endpoint: endpoint_view(self.endpoint),
            uri: opt_view(self.uri),
        }
    }
}

fn opt_text_eq(a: &Option<String>, b: &Option<String>) -> (r: bool)
    ensures
        r == (opt_view(*a) == opt_view(*b)),
{
    match (a, b) {
        (Some(x), Some(y)) => text_eq(x.as_str(), y.as_str()),
        (None, None) => true,
        _ => false,
    }
}

fn clone_opt(a: &Option<String>) -> (r: Option<String>)
    ensures
        opt_view(r) == opt_view(*a),
{
    match a {
        Some(s) => Some(s.clone()),
        None => None,
    }
}

impl DeviceIdentity {
    /// Builds identity from a UUID, device URI, and queue URI fallback.
    pub fn new(uuid: Option<&str>, device_uri: Option<&str>, fallback_uri: Option<&str>) -> (r:
        Self)
        ensures
            r@ == identity_model(
                opt_str_view(uuid),
                opt_str_view(device_uri),
                opt_str_view(fallback_uri),
            ),
    {
        let uuid = match uuid {
            Some(u) => {
                let t = trim_str(u);
                if t.unicode_len() > 0 {
                    Some(to_ascii_lower(t))
                } else {
                    None
                }
            },
            None => None,
        };
        let endpoint = match device_uri {
            Some(d) => parse_uri_endpoint(d),
            None => None,
        };
        let uri = match device_uri {
            Some(d) => Some(uri_identity(d)),
            None => match fallback_uri {
                Some(f) => Some(uri_identity(f)),
                None => None,
            },
        };
        DeviceIdentity { uuid, endpoint, uri }
    }

    /// Compares UUID first, then host and port, then the normalized full URI.
    pub fn matches(&self, other: &Self) -> (r: bool)
        ensures
            r == identities_match(self@, other@),
    {
        if self.uuid.is_some() || other.uuid.is_some() {
            return opt_text_eq(&self.uuid, &other.uuid);
        }
        match (&self.endpoint, &other.endpoint) {
            (Some(left), Some(right)) => {
                return text_eq(left.0.as_str(), right.0.as_str()) && left.1 == right.1;
            },
            _ => {},
        }
        self.uri.is_some() && opt_text_eq(&self.uri, &other.uri)
    }

    /// The normalized UUID, if the queue had one.
    pub fn uuid(&self) -> (r: Option<&str>)
        ensures
            opt_str_view(r) == self@.uuid,
    {
        match &self.uuid {
            Some(s) => Some(s.as_str()),
            None => None,
        }
    }

    /// The lower-case host of the device URI, if it has one.
    pub fn hostname(&self) -> (r: Option<&str>)
        ensures
            match self@.endpoint {
                Some((h, _)) => r is Some && r->0@ == h,
                None => r is None,
            },
    {
        match &self.endpoint {
            Some((h, _)) => Some(h.as_str()),
            None => None,
        }
    }

    /// The explicit or default port of the device URI, if it has a host.
    pub fn port(&self) -> (r: Option<u16>)
        ensures
            match self@.endpoint {
                Some((_, p)) => r == Some(p),
                None => r is None,
            },
    {
        match &self.endpoint {
            Some((_, p)) => Some(*p),
            None => None,
        }
    }

    /// The normalized URI, if the queue had one.
    pub fn uri(&self) -> (r: Option<&str>)
        ensures
            opt_str_view(r) == self@.uri,
    {
        match &self.uri {
            Some(s) => Some(s.as_str()),
            None => None,
        }
    }

    /// Takes from `other` every field this identity lacks.
    fn fill_missing_from(&mut self, other: Self)
        ensures
            final(self)@ == fill_missing(old(self)@, other@),
    {
        if self.uuid.is_none() {
            self.uuid = other.uuid;
        }
        if self.endpoint.is_none() {
            self.endpoint = other.endpoint;
        }
        if self.uri.is_none() {
            self.uri = other.uri;
        }
    }
}

/// Reads a trimmed option and treats missing or empty values as absent.
fn non_empty_option<'a>(options: &'a OptionMap, name: &str) -> (r: Option<&'a str>)
    ensures
        opt_str_view(r) == non_empty(options.map(), name@),
{
    match options.get(name) {
        Some(v) => {
            let t = trim_str(v.as_str());
            if t.unicode_len() > 0 {
                Some(t)
            } else {
                None
            }
        },
        None => None,
    }
}

/// Extracts the shared matching identity from a printer entry.
fn printer_identity(printer: &PrinterEntry) -> (r: DeviceIdentity)
    ensures
        r@ == entry_identity(*printer),
{
    DeviceIdentity::new(
        non_empty_option(&printer.options, "printer-uuid"),
        non_empty_option(&printer.options, "device-uri"),
        non_empty_option(&printer.options, "printer-uri-supported"),
    )
}

/// The identity that a device group holds.
pub open spec fn group_identity(g: GroupedDevice) -> IdentityView {
    IdentityView {
        uuid: g.uuid_view(),
        endpoint: match (g.hostname_view(), g.port_view()) {
            (Some(h), Some(p)) => Some((h, p)),
            _ => None,
        },
        uri: g.uri_view(),
    }
}

/// The device holds `id` field by field: its UUID and URI, and its hostname and port as the
/// two parts of the endpoint, both absent when there is none.
pub open spec fn device_holds(g: GroupedDevice, id: IdentityView) -> bool {
    &&& g.uuid_view() == id.uuid
    &&& g.uri_view() == id.uri
    &&& match id.endpoint {
        Some((h, p)) => g.hostname_view() == Some(h) && g.port_view() == Some(p),
        None => g.hostname_view() is None && g.port_view() is None,
    }
}

/// A device has a hostname exactly when it has a port.
pub open spec fn endpoint_fields_agree(g: GroupedDevice) -> bool {
    (g.hostname_view() is Some) == (g.port_view() is Some)
}

/// A device whose hostname and port come together holds its own identity.
pub proof fn lemma_device_holds_identity(g: GroupedDevice)
    requires
        endpoint_fields_agree(g),
    ensures
        device_holds(g, group_identity(g)),
{
}

impl GroupedDevice {
    /// Starts a physical-device group with one printer queue.
    fn new(printer: PrinterEntry) -> (r: Self)
        ensures
            device_holds(r, entry_identity(printer)),
            group_identity(r) == entry_identity(printer),
            endpoint_fields_agree(r),
            r.queue_seq() == seq![printer],
    {
        let identity = printer_identity(&printer);
        let (hostname, port) = match identity.endpoint {
            Some((h, p)) => (Some(h), Some(p)),
            None => (None, None),
        };
        let mut queues = Vec::new();
        queues.push(printer);
        let r = GroupedDevice {
            uuid: identity.uuid,
            hostname,
            port,
            device_uri_prefix: identity.uri,
            queues,
        };
        proof {
            r.lemma_views();
        }
        r
    }

    /// Tests a queue against the identity the group holds.
    fn matches(&self, printer: &PrinterEntry) -> (r: bool)
        ensures
            r == identities_match(group_identity(*self), entry_identity(*printer)),
    {
        proof {
            self.lemma_views();
        }
        let other = printer_identity(printer);
        let mine = DeviceIdentity {
            uuid: clone_opt(&self.uuid),
            endpoint: match (&self.hostname, self.port) {
                (Some(h), Some(p)) => Some((h.clone(), p)),
                _ => None,
            },
            uri: clone_opt(&self.device_uri_prefix),
        };
        mine.matches(&other)
    }

    /// Adds a matching queue and fills identity fields missing from the group.
    fn add(&mut self, printer: PrinterEntry)
        requires
            endpoint_fields_agree(*old(self)),
        ensures
            device_holds(
                *final(self),
                fill_missing(group_identity(*old(self)), entry_identity(printer)),
            ),
            group_identity(*final(self)) == fill_missing(group_identity(*old(self)), entry_identity(printer)),
            endpoint_fields_agree(*final(self)),
            final(self).queue_seq() == old(self).queue_seq().push(printer),
    {
        proof {
            old(self).lemma_views();
        }
        let identity = printer_identity(&printer);
        let hostname = self.hostname.take();
        let port = self.port.take();
        let mut mine = DeviceIdentity {
            uuid: self.uuid.take(),
            endpoint: match (hostname, port) {
                (Some(h), Some(p)) => Some((h, p)),
                _ => None,
            },
            uri: self.device_uri_prefix.take(),
        };
        assert(mine@ == group_identity(*old(self)));
        mine.fill_missing_from(identity);
        self.uuid = mine.uuid;
        match mine.endpoint {
            Some((h, p)) => {
                self.hostname = Some(h);
                self.port = Some(p);
            },
            None => {
                self.hostname = None;
                self.port = None;
            },
        }
        self.device_uri_prefix = mine.uri;
        self.queues.push(printer);
        proof {
            self.lemma_views();
        }
    }
}

} // verus!

verus! {

/// Queues ordered by id, as `sort_by` on the ids leaves them.
pub open spec fn sorted_by_id(q: Seq<PrinterEntry>) -> bool {
    forall|i: int, j: int| 0 <= i < j < q.len() ==> !text_lt(#[trigger] q[j].id@, #[trigger] q[i].id@)
}

/// Selects the queues whose id is `k`.
pub open spec fn with_id(k: Seq<char>) -> spec_fn(PrinterEntry) -> bool {
    |e: PrinterEntry| e.id@ == k
}

/// `out` is `inp` sorted by id, queues with equal ids kept in their order.
pub open spec fn stable_sort_of(out: Seq<PrinterEntry>, inp: Seq<PrinterEntry>) -> bool {
    &&& sorted_by_id(out)
    &&& forall|k: Seq<char>| #[trigger] out.filter(with_id(k)) == inp.filter(with_id(k))
    &&& out.to_multiset() == inp.to_multiset()
}

proof fn lemma_filter_single(x: PrinterEntry, k: Seq<char>)
    ensures
        seq![x].filter(with_id(k)) == (if x.id@ == k {
            seq![x]
        } else {
            Seq::<PrinterEntry>::empty()
        }),
{
    Seq::<PrinterEntry>::empty().lemma_filter_push(x, with_id(k));
    assert(Seq::<PrinterEntry>::empty().push(x) == seq![x]);
    reveal(Seq::filter);
    assert(Seq::<PrinterEntry>::empty().filter(with_id(k)) == Seq::<PrinterEntry>::empty());
}

/// Sorts queues by id, keeping queues with equal ids in their order.
fn sort_by_id(q: Vec<PrinterEntry>) -> (r: Vec<PrinterEntry>)
    ensures
        stable_sort_of(r@, q@),
{
    broadcast use vstd::seq_lib::group_to_multiset_ensures;

    let ghost input = q@;
    let mut rest = q;
    let mut out: Vec<PrinterEntry> = Vec::new();
    let ghost mut n: int = 0;
    assert(input.take(0) == Seq::<PrinterEntry>::empty());
    proof {
        reveal(Seq::filter);
    }
    while rest.len() > 0
        invariant
            0 <= n <= input.len(),
            rest@ == input.skip(n),
            sorted_by_id(out@),
            forall|k: Seq<char>| #[trigger] out@.filter(with_id(k)) == input.take(n).filter(with_id(k)),
            out@.to_multiset() == input.take(n).to_multiset(),
        decreases rest@.len(),
    {
        let x = rest.remove(0);
        assert(x == input[n]);
        assert(input.take(n + 1) == input.take(n).push(x));
        assert(rest@ == input.skip(n + 1));
        let mut p: usize = 0;
        while p < out.len() && !text_less(x.id.as_str(), out[p].id.as_str())
            invariant
                p <= out@.len(),
                forall|j: int| 0 <= j < p ==> !text_lt(x.id@, #[trigger] out@[j].id@),
            decreases out@.len() - p,
        {
            p += 1;
        }
        let ghost old_out = out@;
        proof {
            // every queue from p on sorts after x
            assert forall|j: int| p <= j < old_out.len() implies text_lt(x.id@, #[trigger] old_out[j].id@) by {
                if j > p {
                    assert(!text_lt(old_out[j].id@, old_out[p as int].id@));
                    lemma_text_lt_total(old_out[j].id@, old_out[p as int].id@);
                    if old_out[j].id@ != old_out[p as int].id@ {
                        lemma_text_lt_transitive(x.id@, old_out[p as int].id@, old_out[j].id@);
                    }
                }
            }
        }
        out.insert(p, x);
        proof {
            let s = out@;
            let front = old_out.subrange(0, p as int);
            let back = old_out.subrange(p as int, old_out.len() as int);
            assert(s == front + seq![x] + back);
            assert(old_out == front + back);
            assert(sorted_by_id(s)) by {
                assert forall|i: int, j: int| 0 <= i < j < s.len() implies !text_lt(#[trigger] s[j].id@, #[trigger] s[i].id@) by {
                    if j < p {
                        assert(s[i] == old_out[i] && s[j] == old_out[j]);
                    } else if j == p {
                        assert(s[i] == old_out[i]);
                    } else if i == p {
                        assert(s[j] == old_out[j - 1]);
                        lemma_text_lt_asymmetric(x.id@, old_out[j - 1].id@);
                    } else if i < p {
                        assert(s[i] == old_out[i] && s[j] == old_out[j - 1]);
                    } else {
                        assert(s[i] == old_out[i - 1] && s[j] == old_out[j - 1]);
                    }
                }
            }
            assert forall|k: Seq<char>| #[trigger] s.filter(with_id(k)) == input.take(n + 1).filter(with_id(k)) by {
                Seq::filter_distributes_over_add(front + seq![x], back, with_id(k));
                Seq::filter_distributes_over_add(front, seq![x], with_id(k));
                Seq::filter_distributes_over_add(front, back, with_id(k));
                lemma_filter_single(x, k);
                input.take(n).lemma_filter_push(x, with_id(k));
                if x.id@ == k {
                    assert forall|j: int| 0 <= j < back.len() implies !with_id(k)(#[trigger] back[j]) by {
                        assert(text_lt(x.id@, old_out[p + j].id@));
                        lemma_text_lt_irreflexive(x.id@);
                    }
                    assert(back.all(|e: PrinterEntry| !with_id(k)(e)));
                    back.lemma_all_neg_filter_empty(with_id(k));
                    assert(back.filter(with_id(k)) == Seq::<PrinterEntry>::empty());
                }
            }
            vstd::seq_lib::to_multiset_insert(old_out, p as int, x);
            assert(old_out.insert(p as int, x) == s);
            vstd::seq_lib::to_multiset_build(input.take(n), x);
            assert(s.to_multiset() == input.take(n + 1).to_multiset());
            n = n + 1;
        }
    }
    assert(input.take(n) == input);
    out
}

} // verus!

verus! {

/// A device group in the model: its identity and its queues in arrival order.
pub type GroupModel = (IdentityView, Seq<PrinterEntry>);

/// Index of the first group at or after `k` whose identity matches `id`, or the count.
pub open spec fn first_match(groups: Seq<GroupModel>, id: IdentityView, k: int) -> int
    decreases groups.len() - k,
{
    if k < 0 || k >= groups.len() {
        groups.len() as int
    } else if identities_match(groups[k].0, id) {
        k
    } else {
        first_match(groups, id, k + 1)
    }
}

/// Places one queue: into the first group that matches it, filling that group's missing
/// identity fields, or into a new group of its own.
pub open spec fn place(groups: Seq<GroupModel>, p: PrinterEntry) -> Seq<GroupModel> {
    let id = entry_identity(p);
    let k = first_match(groups, id, 0);
    if k < groups.len() {
        groups.update(k, (fill_missing(groups[k].0, id), groups[k].1.push(p)))
    } else {
        groups.push((id, seq![p]))
    }
}

/// The groups that placing the queues one after the other gives.
pub open spec fn grouped(ps: Seq<PrinterEntry>) -> Seq<GroupModel>
    decreases ps.len(),
{
    if ps.len() == 0 {
        Seq::empty()
    } else {
        place(grouped(ps.drop_last()), ps.last())
    }
}

/// The model of a list of device groups, queues in arrival order.
pub open spec fn groups_model(ds: Seq<GroupedDevice>) -> Seq<GroupModel> {
    ds.map_values(|d: GroupedDevice| (group_identity(d), d.queue_seq()))
}

proof fn lemma_first_match_bounds(groups: Seq<GroupModel>, id: IdentityView, k: int)
    requires
        0 <= k <= groups.len(),
    ensures
        k <= first_match(groups, id, k) <= groups.len(),
        first_match(groups, id, k) < groups.len() ==> identities_match(
            groups[first_match(groups, id, k)].0,
            id,
        ),
        forall|j: int| k <= j < first_match(groups, id, k) ==> !identities_match(#[trigger] groups[j].0, id),
    decreases groups.len() - k,
{
    if k < groups.len() && !identities_match(groups[k].0, id) {
        lemma_first_match_bounds(groups, id, k + 1);
    }
}

/// `out` is what grouping `ps` gives: one device per model group, in the same order, with
/// the group's identity and its queues sorted by id.
pub open spec fn is_grouping_of(out: Seq<GroupedDevice>, ps: Seq<PrinterEntry>) -> bool {
    &&& out.len() == grouped(ps).len()
    &&& forall|g: int|
        0 <= g < out.len() ==> device_holds(#[trigger] out[g], grouped(ps)[g].0)
            && group_identity(out[g]) == grouped(ps)[g].0 && endpoint_fields_agree(out[g])
            && stable_sort_of(out[g].queue_seq(), grouped(ps)[g].1)
}

/// Groups configured queues that appear to belong to the same physical device.
pub fn group_printers(printers: Vec<PrinterEntry>) -> (r: Vec<GroupedDevice>)
    ensures
        is_grouping_of(r@, printers@),
{
    let ghost input = printers@;
    let mut rest = printers;
    let mut devices: Vec<GroupedDevice> = Vec::new();
    let ghost mut n: int = 0;
    assert(input.take(0) == Seq::<PrinterEntry>::empty());
    assert(groups_model(devices@) == grouped(input.take(0)));
    while rest.len() > 0
        invariant
            0 <= n <= input.len(),
            rest@ == input.skip(n),
            groups_model(devices@) == grouped(input.take(n)),
            forall|i: int| 0 <= i < devices@.len() ==> endpoint_fields_agree(#[trigger] devices@[i]),
        decreases rest@.len(),
    {
        let printer = rest.remove(0);
        assert(printer == input[n]);
        assert(rest@ == input.skip(n + 1));
        let ghost before = groups_model(devices@);
        let ghost id = entry_identity(printer);
        assert(input.take(n + 1).drop_last() == input.take(n));
        assert(grouped(input.take(n + 1)) == place(before, printer));
        let mut k: usize = 0;
        while k < devices.len() && !devices[k].matches(&printer)
            invariant
                k <= devices@.len(),
                before == groups_model(devices@),
                id == entry_identity(printer),
                first_match(before, id, k as int) == first_match(before, id, 0),
                forall|i: int| 0 <= i < devices@.len() ==> endpoint_fields_agree(#[trigger] devices@[i]),
            decreases devices@.len() - k,
        {
            assert(before[k as int].0 == group_identity(devices@[k as int]));
            k += 1;
        }
        proof {
            lemma_first_match_bounds(before, id, k as int);
        }
        if k < devices.len() {
            let ghost old_devs = devices@;
            let mut d = devices.remove(k);
            assert(endpoint_fields_agree(old_devs[k as int]));
            d.add(printer);
            devices.insert(k, d);
            assert(groups_model(devices@) == place(before, printer));
            assert forall|i: int| 0 <= i < devices@.len() implies endpoint_fields_agree(
                #[trigger] devices@[i],
            ) by {
                if i != k {
                    assert(devices@[i] == old_devs[i]);
                }
            }
        } else {
            let ghost old_devs = devices@;
            devices.push(GroupedDevice::new(printer));
            assert(groups_model(devices@) == place(before, printer));
            assert forall|i: int| 0 <= i < devices@.len() implies endpoint_fields_agree(
                #[trigger] devices@[i],
            ) by {
                if i < old_devs.len() {
                    assert(devices@[i] == old_devs[i]);
                }
            }
        }
        proof {
            n = n + 1;
        }
    }
    assert(input.take(n) == input);
    let ghost model = grouped(input);
    let mut out: Vec<GroupedDevice> = Vec::new();
    let ghost mut m: int = 0;
    while devices.len() > 0
        invariant
            0 <= m <= model.len(),
            groups_model(devices@) == model.skip(m),
            out@.len() == m,
            forall|i: int| 0 <= i < devices@.len() ==> endpoint_fields_agree(#[trigger] devices@[i]),
            forall|g: int|
                0 <= g < m ==> group_identity(#[trigger] out@[g]) == model[g].0 && stable_sort_of(
                    out@[g].queue_seq(),
                    model[g].1,
                ) && endpoint_fields_agree(out@[g]) && device_holds(out@[g], model[g].0),
        decreases devices@.len(),
    {
        let ghost old_devs = devices@;
        assert(groups_model(old_devs).len() == old_devs.len());
        let mut d = devices.remove(0);
        assert(devices@ == old_devs.subrange(1, old_devs.len() as int));
        assert(groups_model(devices@) =~= groups_model(old_devs).subrange(1, old_devs.len() as int));
        assert(groups_model(devices@) =~= model.skip(m + 1));
        assert(model[m] == groups_model(old_devs)[0]);
        let ghost old_d = d;
        proof {
            old_d.lemma_views();
            assert(endpoint_fields_agree(old_devs[0]));
            assert forall|i: int| 0 <= i < devices@.len() implies endpoint_fields_agree(
                #[trigger] devices@[i],
            ) by {
                assert(devices@[i] == old_devs[i + 1]);
            }
        }
        let mut queues = Vec::new();
        std::mem::swap(&mut queues, &mut d.queues);
        let sorted = sort_by_id(queues);
        d.queues = sorted;
        proof {
            d.lemma_views();
            lemma_device_holds_identity(d);
        }
        out.push(d);
        proof {
            m = m + 1;
        }
    }
    out
}

} // verus!

verus! {

/// Every queue of a list of groups, group after group.
pub open spec fn all_queues(groups: Seq<GroupModel>) -> Seq<PrinterEntry>
    decreases groups.len(),
{
    if groups.len() == 0 {
        Seq::empty()
    } else {
        all_queues(groups.drop_last()) + groups.last().1
    }
}

/// Matching does not depend on which identity comes first.
pub proof fn lemma_matches_symmetric(a: IdentityView, b: IdentityView)
    ensures
        identities_match(a, b) == identities_match(b, a),
{
}

/// An identity matches itself exactly when it holds some field.
pub proof fn lemma_matches_itself(a: IdentityView)
    ensures
        identities_match(a, a) <==> (a.uuid is Some || a.endpoint is Some || a.uri is Some),
{
}

proof fn lemma_all_queues_update(groups: Seq<GroupModel>, k: int, id: IdentityView, p: PrinterEntry)
    requires
        0 <= k < groups.len(),
    ensures
        all_queues(groups.update(k, (id, groups[k].1.push(p)))).to_multiset() == all_queues(
            groups,
        ).to_multiset().insert(p),
    decreases groups.len(),
{
    broadcast use vstd::seq_lib::group_to_multiset_ensures;
    broadcast use vstd::seq_lib::lemma_multiset_commutative;
    broadcast use vstd::multiset::group_multiset_axioms;

    let u = groups.update(k, (id, groups[k].1.push(p)));
    if k == groups.len() - 1 {
        assert(u.drop_last() == groups.drop_last());
        assert(all_queues(u) == all_queues(groups.drop_last()) + groups[k].1.push(p));
        assert(all_queues(groups.drop_last()) + groups[k].1.push(p) == (all_queues(
            groups.drop_last(),
        ) + groups[k].1).push(p));
        vstd::seq_lib::to_multiset_build(all_queues(groups.drop_last()) + groups[k].1, p);
    } else {
        assert(u.drop_last() == groups.drop_last().update(k, (id, groups[k].1.push(p))));
        lemma_all_queues_update(groups.drop_last(), k, id, p);
        assert(u.last() == groups.last());
        assert(all_queues(u).to_multiset() =~= all_queues(groups).to_multiset().insert(p));
    }
}

/// Grouping places every queue in exactly one group: the queues of all groups together
/// are the input queues, each as often as it was given.
pub proof fn lemma_grouping_keeps_every_queue(ps: Seq<PrinterEntry>)
    ensures
        all_queues(grouped(ps)).to_multiset() == ps.to_multiset(),
    decreases ps.len(),
{
    broadcast use vstd::seq_lib::group_to_multiset_ensures;
    broadcast use vstd::seq_lib::lemma_multiset_commutative;
    broadcast use vstd::multiset::group_multiset_axioms;

    if ps.len() == 0 {
        assert(all_queues(grouped(ps)) == Seq::<PrinterEntry>::empty());
    } else {
        let before = grouped(ps.drop_last());
        let p = ps.last();
        lemma_grouping_keeps_every_queue(ps.drop_last());
        let id = entry_identity(p);
        let k = first_match(before, id, 0);
        lemma_first_match_bounds(before, id, 0);
        if k < before.len() {
            lemma_all_queues_update(before, k, fill_missing(before[k].0, id), p);
        } else {
            let after = before.push((id, seq![p]));
            assert(after.drop_last() == before);
            assert(all_queues(after) == all_queues(before) + seq![p]);
            assert(all_queues(before) + seq![p] == all_queues(before).push(p));
        }
        assert(ps.drop_last().push(p) == ps);
    }
}

/// No group is empty, and there are never more groups than queues.
pub proof fn lemma_groups_non_empty(ps: Seq<PrinterEntry>)
    ensures
        grouped(ps).len() <= ps.len(),
        forall|g: int| 0 <= g < grouped(ps).len() ==> (#[trigger] grouped(ps)[g]).1.len() > 0,
    decreases ps.len(),
{
    if ps.len() > 0 {
        lemma_groups_non_empty(ps.drop_last());
        let before = grouped(ps.drop_last());
        lemma_first_match_bounds(before, entry_identity(ps.last()), 0);
    }
}

/// The identity that queues give together: each field from the earliest queue that has it.
pub open spec fn merged_identity(qs: Seq<PrinterEntry>) -> IdentityView
    decreases qs.len(),
{
    if qs.len() == 0 {
        IdentityView { uuid: None, endpoint: None, uri: None }
    } else {
        fill_missing(merged_identity(qs.drop_last()), entry_identity(qs.last()))
    }
}

/// Each group holds, field by field, the UUID, host and port, and URI of the earliest of its
/// queues (in the order they were given) that has one.
pub proof fn lemma_group_identity_is_merged(ps: Seq<PrinterEntry>)
    ensures
        forall|g: int|
            0 <= g < grouped(ps).len() ==> (#[trigger] grouped(ps)[g]).0 == merged_identity(
                grouped(ps)[g].1,
            ),
    decreases ps.len(),
{
    if ps.len() > 0 {
        lemma_group_identity_is_merged(ps.drop_last());
        let before = grouped(ps.drop_last());
        let p = ps.last();
        let id = entry_identity(p);
        let k = first_match(before, id, 0);
        lemma_first_match_bounds(before, id, 0);
        let after = grouped(ps);
        assert forall|g: int| 0 <= g < after.len() implies (#[trigger] after[g]).0 == merged_identity(
            after[g].1,
        ) by {
            if k < before.len() && g == k {
                assert(after[g].1.drop_last() == before[k].1);
                assert(after[g].1.last() == p);
                assert(merged_identity(after[g].1) == fill_missing(merged_identity(before[k].1), id));
            } else if k >= before.len() && g == before.len() {
                assert(after[g].1 == seq![p]);
                assert(after[g].1.drop_last() == Seq::<PrinterEntry>::empty());
                assert(after[g].1.last() == p);
                let e = merged_identity(Seq::<PrinterEntry>::empty());
                assert(merged_identity(after[g].1) == fill_missing(e, id));
                assert(fill_missing(e, id) == id);
            } else {
                assert(after[g] == before[g]);
            }
        }
    }
}

/// The host of an identity, if it has one, holds no ASCII upper-case letter.
pub open spec fn host_lower(id: IdentityView) -> bool {
    id.endpoint matches Some((h, _)) ==> is_lower(h)
}

proof fn lemma_entry_host_lower(p: PrinterEntry)
    ensures
        host_lower(entry_identity(p)),
{
    match non_empty(p.options.map(), "device-uri"@) {
        Some(d) => lemma_endpoint_host_lower(d),
        None => {},
    }
}

/// Every host that a group holds is lower-case.
pub proof fn lemma_grouped_hosts_lower(ps: Seq<PrinterEntry>)
    ensures
        forall|g: int| 0 <= g < grouped(ps).len() ==> host_lower(#[trigger] grouped(ps)[g].0),
    decreases ps.len(),
{
    if ps.len() > 0 {
        lemma_grouped_hosts_lower(ps.drop_last());
        let before = grouped(ps.drop_last());
        let p = ps.last();
        lemma_entry_host_lower(p);
        lemma_first_match_bounds(before, entry_identity(p), 0);
        let after = grouped(ps);
        assert forall|g: int| 0 <= g < after.len() implies host_lower(#[trigger] after[g].0) by {
            if g < before.len() {
                assert(host_lower(before[g].0));
            }
        }
    }
}

/// The hostname of every device that grouping gives holds no ASCII upper-case letter, and
/// a device has a hostname exactly when it has a port.
pub proof fn lemma_device_hostname_lower(out: Seq<GroupedDevice>, ps: Seq<PrinterEntry>, g: int)
    requires
        is_grouping_of(out, ps),
        0 <= g < out.len(),
    ensures
        out[g].hostname_view() matches Some(h) ==> is_lower(h),
        (out[g].hostname_view() is Some) == (out[g].port_view() is Some),
{
    lemma_grouped_hosts_lower(ps);
    assert(host_lower(grouped(ps)[g].0));
    assert(device_holds(out[g], grouped(ps)[g].0));
}

/// Every queue with a UUID sits in a group with that UUID, and no two groups share a UUID.
pub open spec fn uuids_consistent(groups: Seq<GroupModel>) -> bool {
    &&& forall|g: int, i: int|
        0 <= g < groups.len() && 0 <= i < groups[g].1.len() && (entry_identity(
            #[trigger] groups[g].1[i],
        ).uuid is Some) ==> groups[g].0.uuid == entry_identity(groups[g].1[i]).uuid
    &&& forall|g1: int, g2: int|
        0 <= g1 < groups.len() && 0 <= g2 < groups.len() && g1 != g2 && (#[trigger] groups[g1]).0.uuid is Some
            ==> groups[g1].0.uuid != (#[trigger] groups[g2]).0.uuid
}

proof fn lemma_place_uuids(groups: Seq<GroupModel>, p: PrinterEntry)
    requires
        uuids_consistent(groups),
    ensures
        uuids_consistent(place(groups, p)),
{
    let id = entry_identity(p);
    let k = first_match(groups, id, 0);
    lemma_first_match_bounds(groups, id, 0);
    let after = place(groups, p);
    if k < groups.len() {
        assert(after[k].0.uuid == groups[k].0.uuid);
        assert forall|g: int, i: int|
            0 <= g < after.len() && 0 <= i < after[g].1.len() && (entry_identity(
                #[trigger] after[g].1[i],
            ).uuid is Some) implies after[g].0.uuid == entry_identity(after[g].1[i]).uuid by {
            if g == k && i == groups[k].1.len() {
                assert(after[g].1[i] == p);
            } else if g == k {
                assert(after[g].1[i] == groups[g].1[i]);
            } else {
                assert(after[g] == groups[g]);
            }
        }
        assert forall|g1: int, g2: int|
            0 <= g1 < after.len() && 0 <= g2 < after.len() && g1 != g2 && (#[trigger] after[g1]).0.uuid is Some
            implies after[g1].0.uuid != (#[trigger] after[g2]).0.uuid by {
            assert(after[g1].0.uuid == groups[g1].0.uuid);
            assert(after[g2].0.uuid == groups[g2].0.uuid);
            assert(groups[g1].0.uuid is Some);
        }
    } else {
        assert forall|g: int| 0 <= g < groups.len() && (groups[g].0.uuid is Some || id.uuid is Some) implies #[trigger] groups[g].0.uuid != id.uuid by {
            assert(!identities_match(groups[g].0, id));
        }
        assert forall|g: int, i: int|
            0 <= g < after.len() && 0 <= i < after[g].1.len() && (entry_identity(
                #[trigger] after[g].1[i],
            ).uuid is Some) implies after[g].0.uuid == entry_identity(after[g].1[i]).uuid by {
            if g < groups.len() {
                assert(after[g] == groups[g]);
            } else {
                assert(after[g].1[i] == p);
            }
        }
        assert forall|g1: int, g2: int|
            0 <= g1 < after.len() && 0 <= g2 < after.len() && g1 != g2 && (#[trigger] after[g1]).0.uuid is Some
            implies after[g1].0.uuid != (#[trigger] after[g2]).0.uuid by {
            if g1 < groups.len() && g2 < groups.len() {
                assert(after[g1] == groups[g1] && after[g2] == groups[g2]);
            } else if g1 < groups.len() {
                assert(after[g1] == groups[g1]);
                assert(groups[g1].0.uuid != id.uuid);
            } else {
                assert(after[g2] == groups[g2]);
                assert(groups[g2].0.uuid != id.uuid);
            }
        }
    }
}

proof fn lemma_grouped_uuids(ps: Seq<PrinterEntry>)
    ensures
        uuids_consistent(grouped(ps)),
    decreases ps.len(),
{
    if ps.len() > 0 {
        lemma_grouped_uuids(ps.drop_last());
        lemma_place_uuids(grouped(ps.drop_last()), ps.last());
    }
}

/// Two queues that report the same UUID end up in the same device group.
pub proof fn lemma_same_uuid_same_group(ps: Seq<PrinterEntry>, g1: int, i1: int, g2: int, i2: int)
    requires
        0 <= g1 < grouped(ps).len(),
        0 <= g2 < grouped(ps).len(),
        0 <= i1 < grouped(ps)[g1].1.len(),
        0 <= i2 < grouped(ps)[g2].1.len(),
        entry_identity(grouped(ps)[g1].1[i1]).uuid is Some,
        entry_identity(grouped(ps)[g1].1[i1]).uuid == entry_identity(grouped(ps)[g2].1[i2]).uuid,
    ensures
        g1 == g2,
{
    lemma_grouped_uuids(ps);
    let gs = grouped(ps);
    assert(gs[g1].0.uuid == entry_identity(gs[g1].1[i1]).uuid);
    assert(gs[g2].0.uuid == entry_identity(gs[g2].1[i2]).uuid);
}

/// Two queues that report different UUIDs end up in different device groups.
pub proof fn lemma_different_uuid_different_group(
    ps: Seq<PrinterEntry>,
    g1: int,
    i1: int,
    g2: int,
    i2: int,
)
    requires
        0 <= g1 < grouped(ps).len(),
        0 <= g2 < grouped(ps).len(),
        0 <= i1 < grouped(ps)[g1].1.len(),
        0 <= i2 < grouped(ps)[g2].1.len(),
        entry_identity(grouped(ps)[g1].1[i1]).uuid is Some,
        entry_identity(grouped(ps)[g2].1[i2]).uuid is Some,
        entry_identity(grouped(ps)[g1].1[i1]).uuid != entry_identity(grouped(ps)[g2].1[i2]).uuid,
    ensures
        g1 != g2,
{
    lemma_grouped_uuids(ps);
    let gs = grouped(ps);
    assert(gs[g1].0.uuid == entry_identity(gs[g1].1[i1]).uuid);
    assert(gs[g2].0.uuid == entry_identity(gs[g2].1[i2]).uuid);
}

} // verus!

verus! {

/// A normalized UUID holds no ASCII upper-case letter and no surrounding whitespace.
pub proof fn lemma_uuid_normalized(u: Seq<char>)
    ensures
        normalized_uuid(u) matches Some(v) ==> is_lower(v) && v.len() > 0 && trim(v) == v,
{
    crate::uri::lemma_ascii_lower_is_lower(trim(u));
    crate::uri::lemma_lower_trim(trim(u));
    crate::text::lemma_trim_idempotent(u);
}

/// Filling missing fields never replaces a field that is present.
pub proof fn lemma_fill_keeps_present(a: IdentityView, b: IdentityView)
    ensures
        a.uuid is Some ==> fill_missing(a, b).uuid == a.uuid,
        a.endpoint is Some ==> fill_missing(a, b).endpoint == a.endpoint,
        a.uri is Some ==> fill_missing(a, b).uri == a.uri,
        fill_missing(a, b).uuid is Some <==> (a.uuid is Some || b.uuid is Some),
{
}

impl PartialEq for DeviceIdentity {
    fn eq(&self, other: &Self) -> (r: bool) {
        let same_endpoint = match (&self.endpoint, &other.endpoint) {
            (Some(a), Some(b)) => text_eq(a.0.as_str(), b.0.as_str()) && a.1 == b.1,
            (None, None) => true,
            _ => false,
        };
        opt_text_eq(&self.uuid, &other.uuid) && same_endpoint && opt_text_eq(&self.uri, &other.uri)
    }
}

impl vstd::std_specs::cmp::PartialEqSpecImpl for DeviceIdentity {
    open spec fn obeys_eq_spec() -> bool {
        true
    }

    open spec fn eq_spec(&self, other: &Self) -> bool {
        self@ == other@
    }
}

impl Eq for DeviceIdentity {

}

} // verus!

verus! {

/// Every queue of a list of devices, device after device.
pub open spec fn device_queues(out: Seq<GroupedDevice>) -> Seq<PrinterEntry>
    decreases out.len(),
{
    if out.len() == 0 {
        Seq::empty()
    } else {
        device_queues(out.drop_last()) + out.last().queue_seq()
    }
}

proof fn lemma_device_queues_prefix(out: Seq<GroupedDevice>, ps: Seq<PrinterEntry>, n: int)
    requires
        is_grouping_of(out, ps),
        0 <= n <= out.len(),
    ensures
        device_queues(out.subrange(0, n)).to_multiset() == all_queues(
            grouped(ps).subrange(0, n),
        ).to_multiset(),
    decreases n,
{
    broadcast use vstd::seq_lib::lemma_multiset_commutative;

    if n > 0 {
        lemma_device_queues_prefix(out, ps, n - 1);
        assert(out.subrange(0, n).drop_last() == out.subrange(0, n - 1));
        assert(grouped(ps).subrange(0, n).drop_last() == grouped(ps).subrange(0, n - 1));
        assert(out.subrange(0, n).last() == out[n - 1]);
        assert(grouped(ps).subrange(0, n).last() == grouped(ps)[n - 1]);
    } else {
        assert(device_queues(out.subrange(0, 0)) == Seq::<PrinterEntry>::empty());
        assert(all_queues(grouped(ps).subrange(0, 0)) == Seq::<PrinterEntry>::empty());
    }
}

/// The devices that grouping returns hold every input queue exactly as often as it was
/// given.
pub proof fn lemma_devices_keep_every_queue(out: Seq<GroupedDevice>, ps: Seq<PrinterEntry>)
    requires
        is_grouping_of(out, ps),
    ensures
        device_queues(out).to_multiset() == ps.to_multiset(),
{
    lemma_device_queues_prefix(out, ps, out.len() as int);
    assert(out.subrange(0, out.len() as int) == out);
    assert(grouped(ps).subrange(0, out.len() as int) == grouped(ps));
    lemma_grouping_keeps_every_queue(ps);
}

proof fn lemma_device_queue_in_group(out: Seq<GroupedDevice>, ps: Seq<PrinterEntry>, g: int, i: int) -> (j: int)
    requires
        is_grouping_of(out, ps),
        0 <= g < out.len(),
        0 <= i < out[g].queue_seq().len(),
    ensures
        0 <= j < grouped(ps)[g].1.len(),
        grouped(ps)[g].1[j] == out[g].queue_seq()[i],
{
    broadcast use vstd::seq_lib::group_to_multiset_ensures;

    let q = out[g].queue_seq();
    assert(q.contains(q[i]));
    assert(q.to_multiset().count(q[i]) > 0);
    assert(grouped(ps)[g].1.contains(q[i]));
    choose|j: int| 0 <= j < grouped(ps)[g].1.len() && grouped(ps)[g].1[j] == q[i]
}

/// In the devices that grouping returns, queues reporting the same UUID share a device.
pub proof fn lemma_devices_same_uuid(
    out: Seq<GroupedDevice>,
    ps: Seq<PrinterEntry>,
    g1: int,
    i1: int,
    g2: int,
    i2: int,
)
    requires
        is_grouping_of(out, ps),
        0 <= g1 < out.len(),
        0 <= g2 < out.len(),
        0 <= i1 < out[g1].queue_seq().len(),
        0 <= i2 < out[g2].queue_seq().len(),
        entry_identity(out[g1].queue_seq()[i1]).uuid is Some,
        entry_identity(out[g1].queue_seq()[i1]).uuid == entry_identity(
            out[g2].queue_seq()[i2],
        ).uuid,
    ensures
        g1 == g2,
{
    let j1 = lemma_device_queue_in_group(out, ps, g1, i1);
    let j2 = lemma_device_queue_in_group(out, ps, g2, i2);
    lemma_same_uuid_same_group(ps, g1, j1, g2, j2);
}

/// In the devices that grouping returns, queues reporting different UUIDs never share a
/// device, and a device's UUID is the UUID its queues report.
pub proof fn lemma_devices_uuid_of_queue(out: Seq<GroupedDevice>, ps: Seq<PrinterEntry>, g: int, i: int)
    requires
        is_grouping_of(out, ps),
        0 <= g < out.len(),
        0 <= i < out[g].queue_seq().len(),
        entry_identity(out[g].queue_seq()[i]).uuid is Some,
    ensures
        out[g].uuid_view() == entry_identity(out[g].queue_seq()[i]).uuid,
{
    let j = lemma_device_queue_in_group(out, ps, g, i);
    lemma_grouped_uuids(ps);
    assert(grouped(ps)[g].0.uuid == entry_identity(grouped(ps)[g].1[j]).uuid);
}

} // verus!

verus! {

/// Two queues without UUIDs that report the same device URI name the same device.
pub proof fn lemma_same_device_uri_matches(
    device_uri: Seq<char>,
    fallback1: Option<Seq<char>>,
    fallback2: Option<Seq<char>>,
)
    ensures
        identities_match(
            identity_model(None, Some(device_uri), fallback1),
            identity_model(None, Some(device_uri), fallback2),
        ),
{
}

} // verus!

verus! {

proof fn lemma_filter_nonempty_witness(s: Seq<PrinterEntry>, k: Seq<char>)
    requires
        s.filter(with_id(k)).len() > 0,
    ensures
        exists|i: int| 0 <= i < s.len() && (#[trigger] s[i]).id@ == k,
{
    broadcast use vstd::seq_lib::group_filter_ensures;

    let f = s.filter(with_id(k));
    assert(with_id(k)(f[0]));
    assert(s.contains(f[0])) by {
        s.lemma_filter_contains_rev(with_id(k), f[0]);
    }
}

proof fn lemma_filter_of_present(s: Seq<PrinterEntry>, i: int)
    requires
        0 <= i < s.len(),
    ensures
        s.filter(with_id(s[i].id@)).len() > 0,
{
    broadcast use vstd::seq_lib::group_filter_ensures;

    s.lemma_filter_contains(with_id(s[i].id@), i);
}

/// Sorting by id is fully determined: two orderings that are both sorted and keep every
/// id's queues in the same order are the same.
pub proof fn lemma_stable_sort_unique(a: Seq<PrinterEntry>, b: Seq<PrinterEntry>)
    requires
        sorted_by_id(a),
        sorted_by_id(b),
        forall|k: Seq<char>| #[trigger] a.filter(with_id(k)) == b.filter(with_id(k)),
    ensures
        a == b,
    decreases a.len() + b.len(),
{
    if a.len() == 0 && b.len() == 0 {
        assert(a =~= b);
    } else if a.len() == 0 {
        lemma_filter_of_present(b, 0);
        assert(a.filter(with_id(b[0].id@)) == b.filter(with_id(b[0].id@)));
        reveal(Seq::filter);
        assert(a.filter(with_id(b[0].id@)).len() == 0);
    } else if b.len() == 0 {
        lemma_filter_of_present(a, 0);
        assert(a.filter(with_id(a[0].id@)) == b.filter(with_id(a[0].id@)));
        reveal(Seq::filter);
        assert(b.filter(with_id(a[0].id@)).len() == 0);
    } else {
        let x = a.last();
        let y = b.last();
        let kx = x.id@;
        let ky = y.id@;
        // the last ids are the largest, so they agree
        lemma_filter_of_present(b, b.len() - 1);
        assert(a.filter(with_id(ky)) == b.filter(with_id(ky)));
        lemma_filter_nonempty_witness(a, ky);
        let ia = choose|i: int| 0 <= i < a.len() && (#[trigger] a[i]).id@ == ky;
        lemma_filter_of_present(a, a.len() - 1);
        assert(a.filter(with_id(kx)) == b.filter(with_id(kx)));
        lemma_filter_nonempty_witness(b, kx);
        let ib = choose|i: int| 0 <= i < b.len() && (#[trigger] b[i]).id@ == kx;
        if kx != ky {
            lemma_text_lt_total(kx, ky);
            if text_lt(kx, ky) {
                // a[ia] has id ky, above the last id kx of a
                if ia < a.len() - 1 {
                    assert(!text_lt(a[a.len() - 1].id@, a[ia].id@));
                }
                lemma_text_lt_irreflexive(kx);
            } else {
                if ib < b.len() - 1 {
                    assert(!text_lt(b[b.len() - 1].id@, b[ib].id@));
                }
                lemma_text_lt_irreflexive(ky);
            }
        }
        assert(kx == ky);
        let ad = a.drop_last();
        let bd = b.drop_last();
        assert(a == ad.push(x));
        assert(b == bd.push(y));
        ad.lemma_filter_push(x, with_id(kx));
        bd.lemma_filter_push(y, with_id(kx));
        assert(x == y) by {
            assert(with_id(kx)(x));
            assert(with_id(kx)(y));
            let fa = a.filter(with_id(kx));
            let fb = b.filter(with_id(kx));
            assert(fa == ad.filter(with_id(kx)).push(x));
            assert(fb == bd.filter(with_id(kx)).push(y));
            assert(fa == fb);
            assert(fa[fa.len() - 1] == x);
            assert(fb[fb.len() - 1] == y);
        }
        assert forall|k: Seq<char>| #[trigger] ad.filter(with_id(k)) == bd.filter(with_id(k)) by {
            ad.lemma_filter_push(x, with_id(k));
            bd.lemma_filter_push(y, with_id(k));
            assert(a.filter(with_id(k)) == b.filter(with_id(k)));
            if k == kx {
                assert(ad.filter(with_id(k)) == a.filter(with_id(k)).drop_last());
                assert(bd.filter(with_id(k)) == b.filter(with_id(k)).drop_last());
            }
        }
        assert(sorted_by_id(ad)) by {
            assert forall|i: int, j: int| 0 <= i < j < ad.len() implies !text_lt(
                #[trigger] ad[j].id@,
                #[trigger] ad[i].id@,
            ) by {
                assert(ad[i] == a[i] && ad[j] == a[j]);
            }
        }
        assert(sorted_by_id(bd)) by {
            assert forall|i: int, j: int| 0 <= i < j < bd.len() implies !text_lt(
                #[trigger] bd[j].id@,
                #[trigger] bd[i].id@,
            ) by {
                assert(bd[i] == b[i] && bd[j] == b[j]);
            }
        }
        lemma_stable_sort_unique(ad, bd);
    }
}

} // verus!

verus! {

/// In every group without a UUID, each queue that has a host and port has the group's.
pub open spec fn endpoints_consistent(groups: Seq<GroupModel>) -> bool {
    forall|g: int, i: int|
        0 <= g < groups.len() && 0 <= i < groups[g].1.len() && groups[g].0.uuid is None && (
        entry_identity(#[trigger] groups[g].1[i]).endpoint is Some) ==> groups[g].0.endpoint
            == entry_identity(groups[g].1[i]).endpoint
}

proof fn lemma_place_endpoints(groups: Seq<GroupModel>, p: PrinterEntry)
    requires
        endpoints_consistent(groups),
    ensures
        endpoints_consistent(place(groups, p)),
{
    let id = entry_identity(p);
    let k = first_match(groups, id, 0);
    lemma_first_match_bounds(groups, id, 0);
    let after = place(groups, p);
    assert forall|g: int, i: int|
        0 <= g < after.len() && 0 <= i < after[g].1.len() && after[g].0.uuid is None && (
        entry_identity(#[trigger] after[g].1[i]).endpoint is Some) implies after[g].0.endpoint
        == entry_identity(after[g].1[i]).endpoint by {
        if k < groups.len() && g == k {
            assert(groups[k].0.uuid is None);
            if i == groups[k].1.len() {
                assert(after[g].1[i] == p);
                assert(identities_match(groups[k].0, id));
            } else {
                assert(after[g].1[i] == groups[g].1[i]);
            }
        } else if k >= groups.len() && g == groups.len() {
            assert(after[g].1[i] == p);
        } else {
            assert(after[g] == groups[g]);
        }
    }
}

/// Grouping keeps the host-and-port match: in a group without a UUID, every queue that has
/// a host and port has the group's host and port.
pub proof fn lemma_grouped_endpoints(ps: Seq<PrinterEntry>)
    ensures
        endpoints_consistent(grouped(ps)),
    decreases ps.len(),
{
    if ps.len() > 0 {
        lemma_grouped_endpoints(ps.drop_last());
        lemma_place_endpoints(grouped(ps.drop_last()), ps.last());
    }
}

/// In the devices that grouping returns, a device without a UUID has the host and port of
/// every one of its queues that has a host and port.
pub proof fn lemma_devices_endpoint_of_queue(
    out: Seq<GroupedDevice>,
    ps: Seq<PrinterEntry>,
    g: int,
    i: int,
)
    requires
        is_grouping_of(out, ps),
        0 <= g < out.len(),
        0 <= i < out[g].queue_seq().len(),
        out[g].uuid_view() is None,
        entry_identity(out[g].queue_seq()[i]).endpoint is Some,
    ensures
        out[g].hostname_view() is Some,
        out[g].port_view() is Some,
        entry_identity(out[g].queue_seq()[i]).endpoint == Some(
            (out[g].hostname_view()->0, out[g].port_view()->0),
        ),
{
    let j = lemma_device_queue_in_group(out, ps, g, i);
    lemma_grouped_endpoints(ps);
    assert(device_holds(out[g], grouped(ps)[g].0));
    assert(grouped(ps)[g].0.endpoint == entry_identity(grouped(ps)[g].1[j]).endpoint);
}

} // verus!

verus! {

/// Every queue of a group has the group's UUID: the same one, or none in a group without one.
pub open spec fn uuids_shared(groups: Seq<GroupModel>) -> bool {
    forall|g: int, i: int|
        0 <= g < groups.len() && 0 <= i < groups[g].1.len() ==> entry_identity(
            #[trigger] groups[g].1[i],
        ).uuid == groups[g].0.uuid
}

proof fn lemma_place_uuids_shared(groups: Seq<GroupModel>, p: PrinterEntry)
    requires
        uuids_shared(groups),
    ensures
        uuids_shared(place(groups, p)),
{
    let id = entry_identity(p);
    let k = first_match(groups, id, 0);
    lemma_first_match_bounds(groups, id, 0);
    let after = place(groups, p);
    assert forall|g: int, i: int| 0 <= g < after.len() && 0 <= i < after[g].1.len() implies entry_identity(
        #[trigger] after[g].1[i],
    ).uuid == after[g].0.uuid by {
        if k < groups.len() && g == k {
            assert(identities_match(groups[k].0, id));
            if i == groups[k].1.len() {
                assert(after[g].1[i] == p);
            } else {
                assert(after[g].1[i] == groups[g].1[i]);
            }
        } else if k >= groups.len() && g == groups.len() {
            assert(after[g].1[i] == p);
        } else {
            assert(after[g] == groups[g]);
        }
    }
}

/// Grouping puts a queue without a UUID only into a group without one, and a queue with a
/// UUID only into the group with that UUID.
pub proof fn lemma_grouped_uuids_shared(ps: Seq<PrinterEntry>)
    ensures
        uuids_shared(grouped(ps)),
    decreases ps.len(),
{
    if ps.len() > 0 {
        lemma_grouped_uuids_shared(ps.drop_last());
        lemma_place_uuids_shared(grouped(ps.drop_last()), ps.last());
    }
}

/// In the devices that grouping returns, every queue has its device's UUID (none when the
/// device has none), and a device's UUID is non-empty, trimmed and holds no ASCII
/// upper-case letter.
pub proof fn lemma_devices_queue_uuid(out: Seq<GroupedDevice>, ps: Seq<PrinterEntry>, g: int, i: int)
    requires
        is_grouping_of(out, ps),
        0 <= g < out.len(),
        0 <= i < out[g].queue_seq().len(),
    ensures
        entry_identity(out[g].queue_seq()[i]).uuid == out[g].uuid_view(),
        out[g].uuid_view() matches Some(u) ==> u.len() > 0 && is_lower(u) && trim(u) == u,
{
    let j = lemma_device_queue_in_group(out, ps, g, i);
    lemma_grouped_uuids_shared(ps);
    let q = grouped(ps)[g].1[j];
    assert(entry_identity(q).uuid == grouped(ps)[g].0.uuid);
    match non_empty(q.options.map(), "printer-uuid"@) {
        Some(u) => lemma_uuid_normalized(u),
        None => {},
    }
}

} // verus!

verus! {

/// Whether some configured queue stands for the device `candidate`: the identity of one of
/// them matches it.
pub fn is_configured(candidate: &DeviceIdentity, configured: &Vec<DeviceIdentity>) -> (r: bool)
    ensures
        r == exists|i: int|
            0 <= i < configured@.len() && identities_match(#[trigger] configured@[i]@, candidate@),
{
    let mut i: usize = 0;
    while i < configured.len()
        invariant
            i <= configured@.len(),
            forall|j: int| 0 <= j < i ==> !identities_match(#[trigger] configured@[j]@, candidate@),
        decreases configured@.len() - i,
    {
        if configured[i].matches(candidate) {
            return true;
        }
        i += 1;
    }
    false
}

} // verus!
