//! Iterative resolution as a pure state machine. The surrounding
//! process owns the sockets: it performs each `Query` action, hands
//! back the parsed reply (or reports a timeout), and the machine
//! decides the next step. A global iteration budget bounds the whole
//! resolution, nested glue-less lookups included, so a chain of
//! delegations can never loop forever.

use vstd::prelude::*;

use crate::common::{is_root_server, random_below, root_servers, DNSServer, FlagRecordType, ServerView};
use crate::errors::ResolutionError;
use crate::labels::{labels_eq, LabelSeq, Labels};
use crate::message::{Message, MessageView};
use crate::question::{Question, QuestionView};
use crate::record::{RdataView, RecordView, ResourceRecord};

verus! {

/// The hard cap on query iterations across one whole resolution.
pub const MAX_ITER_FORWARD: u32 = 10;

/// The hard cap on nested glue-less resolutions.
pub const MAX_NESTED: usize = 5;

/// The delegation target an NS record names: address still unknown.
pub open spec fn spec_server_of_ns(r: RecordView) -> ServerView {
    ServerView { name: r.data->NS_0, ipv4addr: None, ipv6addr: None, port: 53 }
}

/// The delegation candidates a record list names, in the order the
/// NS records appear; order matters because glue usually covers only
/// the first entries.
pub open spec fn spec_ns_servers(records: Seq<RecordView>) -> Seq<ServerView>
    decreases records.len(),
{
    if records.len() == 0 {
        Seq::empty()
    } else {
        let rest = spec_ns_servers(records.drop_first());
        if records[0].data is NS {
            seq![spec_server_of_ns(records[0])] + rest
        } else {
            rest
        }
    }
}

/// The non-NS records whose owner name is exactly the queried name,
/// in order; everything else is discarded.
pub open spec fn spec_matching_resources(records: Seq<RecordView>, name: Labels) -> Seq<
    RecordView,
>
    decreases records.len(),
{
    if records.len() == 0 {
        Seq::empty()
    } else {
        let rest = spec_matching_resources(records.drop_first(), name);
        if !(records[0].data is NS) && records[0].name == name {
            seq![records[0]] + rest
        } else {
            rest
        }
    }
}

/// The index of the last candidate carrying this name, or -1.
pub open spec fn spec_last_ns_index(servers: Seq<ServerView>, name: Labels) -> int
    decreases servers.len(),
{
    if servers.len() == 0 {
        -1
    } else if servers.last().name == name {
        servers.len() - 1
    } else {
        spec_last_ns_index(servers.drop_last(), name)
    }
}

/// One additional-section record folded into the candidate list: an
/// address record whose name matches a candidate fills that
/// candidate's address, later records overwriting earlier ones.
pub open spec fn spec_apply_glue(servers: Seq<ServerView>, r: RecordView) -> Seq<ServerView> {
    let i = spec_last_ns_index(servers, r.name);
    if i < 0 {
        servers
    } else {
        match r.data {
            RdataView::A(ip) => servers.update(
                i,
                ServerView { ipv4addr: Some(ip), ..servers[i] },
            ),
            RdataView::AAAA(ip) => servers.update(
                i,
                ServerView { ipv6addr: Some(ip), ..servers[i] },
            ),
            _ => servers,
        }
    }
}

/// The candidate list after all additional-section glue is merged.
pub open spec fn spec_merge_glue(servers: Seq<ServerView>, addi: Seq<RecordView>) -> Seq<
    ServerView,
>
    decreases addi.len(),
{
    if addi.len() == 0 {
        servers
    } else {
        spec_merge_glue(spec_apply_glue(servers, addi[0]), addi.drop_first())
    }
}

/// The IPv4 addresses of the A records in a record list, in order.
pub open spec fn spec_a_addrs(records: Seq<RecordView>) -> Seq<u32>
    decreases records.len(),
{
    if records.len() == 0 {
        Seq::empty()
    } else {
        let rest = spec_a_addrs(records.drop_first());
        match records[0].data {
            RdataView::A(ip) => seq![ip] + rest,
            _ => rest,
        }
    }
}

/// What a reply contributes to a resolution: new delegation
/// candidates (with glue merged in) and the records answering the
/// queried name.
pub struct Answer {
    pub servers: Vec<DNSServer>,
    pub resources: Vec<ResourceRecord>,
}

/// The records the resolver scans: the answer section, then the
/// authority section.
pub open spec fn spec_relevant(m: MessageView) -> Seq<RecordView> {
    m.resources + m.auth_resources
}

/// Collects delegation candidates and matching resources from a
/// reply, merging A/AAAA glue from the additional section into the
/// candidates by name.
pub fn extract_answer(msg: &Message, requested_name: &LabelSeq) -> (r: Answer)
    ensures
        r.servers.deep_view() == spec_merge_glue(
            spec_ns_servers(spec_relevant(msg@)),
            msg@.addi_resources,
        ),
        r.resources.deep_view() == spec_matching_resources(
            spec_relevant(msg@),
            requested_name@,
        ),
{
    let mut servers: Vec<DNSServer> = Vec::new();
    let mut resources: Vec<ResourceRecord> = Vec::new();
    collect_from(&msg.resources, requested_name, &mut servers, &mut resources);
    collect_from(&msg.auth_resources, requested_name, &mut servers, &mut resources);
    proof {
        lemma_ns_servers_concat(msg@.resources, msg@.auth_resources);
        lemma_matching_concat(msg@.resources, msg@.auth_resources, requested_name@);
    }
    merge_glue(&mut servers, &msg.addi_resources);
    Answer { servers, resources }
}

/// Splitting a record list splits its candidates.
proof fn lemma_ns_servers_concat(a: Seq<RecordView>, b: Seq<RecordView>)
    ensures
        spec_ns_servers(a + b) == spec_ns_servers(a) + spec_ns_servers(b),
    decreases a.len(),
{
    if a.len() == 0 {
        assert(a + b =~= b);
        assert(spec_ns_servers(a) + spec_ns_servers(b) =~= spec_ns_servers(b));
    } else {
        assert((a + b).drop_first() =~= a.drop_first() + b);
        lemma_ns_servers_concat(a.drop_first(), b);
        if a[0].data is NS {
            assert(seq![spec_server_of_ns(a[0])] + (spec_ns_servers(a.drop_first())
                + spec_ns_servers(b)) =~= (seq![spec_server_of_ns(a[0])] + spec_ns_servers(
                a.drop_first(),
            )) + spec_ns_servers(b));
        }
    }
}

/// Splitting a record list splits its matching resources.
proof fn lemma_matching_concat(a: Seq<RecordView>, b: Seq<RecordView>, name: Labels)
    ensures
        spec_matching_resources(a + b, name) == spec_matching_resources(a, name)
            + spec_matching_resources(b, name),
    decreases a.len(),
{
    if a.len() == 0 {
        assert(a + b =~= b);
        assert(spec_matching_resources(a, name) + spec_matching_resources(b, name)
            =~= spec_matching_resources(b, name));
    } else {
        assert((a + b).drop_first() =~= a.drop_first() + b);
        lemma_matching_concat(a.drop_first(), b, name);
        if !(a[0].data is NS) && a[0].name == name {
            assert(seq![a[0]] + (spec_matching_resources(a.drop_first(), name)
                + spec_matching_resources(b, name)) =~= (seq![a[0]] + spec_matching_resources(
                a.drop_first(),
                name,
            )) + spec_matching_resources(b, name));
        }
    }
}

/// Walks one record list, appending NS candidates and matching
/// resources.
fn collect_from(
    records: &Vec<ResourceRecord>,
    requested_name: &LabelSeq,
    servers: &mut Vec<DNSServer>,
    resources: &mut Vec<ResourceRecord>,
)
    ensures
        final(servers).deep_view() == old(servers).deep_view() + spec_ns_servers(
            records.deep_view(),
        ),
        final(resources).deep_view() == old(resources).deep_view() + spec_matching_resources(
            records.deep_view(),
            requested_name@,
        ),
{
    let n = records.len();
    let mut i: usize = 0;
    proof {
        assert(records.deep_view().skip(0) =~= records.deep_view());
    }
    while i < n
        invariant
            i <= n,
            n == records@.len(),
            servers.deep_view() + spec_ns_servers(records.deep_view().skip(i as int))
                =~= old(servers).deep_view() + spec_ns_servers(records.deep_view()),
            resources.deep_view() + spec_matching_resources(
                records.deep_view().skip(i as int),
                requested_name@,
            ) =~= old(resources).deep_view() + spec_matching_resources(
                records.deep_view(),
                requested_name@,
            ),
        decreases n - i,
    {
        let ghost sfx = records.deep_view().skip(i as int);
        let ghost pre_servers = servers.deep_view();
        let ghost pre_resources = resources.deep_view();
        proof {
            assert(sfx[0] == records.deep_view()[i as int]);
            assert(sfx.drop_first() =~= records.deep_view().skip(i + 1));
        }
        let record = &records[i];
        match &record.data {
            crate::record::ResourceData::NS(server_name) => {
                let server = DNSServer {
                    name: server_name.clone(),
                    ipv4addr: None,
                    ipv6addr: None,
                    port: 53,
                };
                let ghost pre = *servers;
                servers.push(server);
                proof {
                    assert(servers.deep_view() =~= pre.deep_view().push(
                        servers@[servers@.len() - 1].deep_view(),
                    ));
                    assert(servers@[servers@.len() - 1].deep_view() == spec_server_of_ns(sfx[0]));
                    assert(pre_servers.push(spec_server_of_ns(sfx[0])) + spec_ns_servers(
                        sfx.drop_first(),
                    ) =~= pre_servers + spec_ns_servers(sfx));
                }
            },
            _ => {
                if labels_eq(&record.name.labels, &requested_name.labels) {
                    let cloned_record = record.clone();
                    let ghost pre = *resources;
                    resources.push(cloned_record);
                    proof {
                        assert(resources.deep_view() =~= pre.deep_view().push(
                            resources@[resources@.len() - 1].deep_view(),
                        ));
                        assert(pre_resources.push(sfx[0]) + spec_matching_resources(
                            sfx.drop_first(),
                            requested_name@,
                        ) =~= pre_resources + spec_matching_resources(sfx, requested_name@));
                    }
                } else {
                    proof {
                        assert(!(sfx[0].name == requested_name@));
                    }
                }
            },
        }
        i = i + 1;
    }
    proof {
        assert(records.deep_view().skip(n as int) =~= Seq::<RecordView>::empty());
        assert(servers.deep_view() + spec_ns_servers(Seq::<RecordView>::empty())
            =~= servers.deep_view());
        assert(resources.deep_view() + spec_matching_resources(
            Seq::<RecordView>::empty(),
            requested_name@,
        ) =~= resources.deep_view());
    }
}

/// The index of the last candidate carrying this name, scanned from
/// the back.
fn last_ns_index(servers: &Vec<DNSServer>, name: &LabelSeq) -> (r: Option<usize>)
    ensures
        match r {
            Some(i) => i < servers@.len() && spec_last_ns_index(servers.deep_view(), name@)
                == i as int,
            None => spec_last_ns_index(servers.deep_view(), name@) == -1,
        },
{
    let n = servers.len();
    let mut k: usize = n;
    proof {
        assert(servers.deep_view().take(n as int) =~= servers.deep_view());
    }
    while k > 0
        invariant
            k <= n,
            n == servers@.len(),
            spec_last_ns_index(servers.deep_view(), name@) == spec_last_ns_index(
                servers.deep_view().take(k as int),
                name@,
            ),
        decreases k,
    {
        let ghost pre = servers.deep_view().take(k as int);
        if labels_eq(&servers[k - 1].name.labels, &name.labels) {
            proof {
                assert(pre.last() == servers.deep_view()[k - 1]);
            }
            return Some(k - 1);
        }
        proof {
            assert(pre.last() == servers.deep_view()[k - 1]);
            assert(pre.drop_last() =~= servers.deep_view().take(k - 1));
        }
        k = k - 1;
    }
    proof {
        assert(servers.deep_view().take(0) =~= Seq::<ServerView>::empty());
    }
    None
}

/// Merges the additional section's A and AAAA records into the
/// candidates, by owner name, in order.
fn merge_glue(servers: &mut Vec<DNSServer>, addi: &Vec<ResourceRecord>)
    ensures
        final(servers).deep_view() == spec_merge_glue(
            old(servers).deep_view(),
            addi.deep_view(),
        ),
{
    let n = addi.len();
    let mut j: usize = 0;
    proof {
        assert(addi.deep_view().skip(0) =~= addi.deep_view());
    }
    while j < n
        invariant
            j <= n,
            n == addi@.len(),
            spec_merge_glue(servers.deep_view(), addi.deep_view().skip(j as int))
                == spec_merge_glue(old(servers).deep_view(), addi.deep_view()),
        decreases n - j,
    {
        let ghost sfx = addi.deep_view().skip(j as int);
        let ghost pre = servers.deep_view();
        proof {
            assert(sfx[0] == addi.deep_view()[j as int]);
            assert(sfx.drop_first() =~= addi.deep_view().skip(j + 1));
        }
        let record = &addi[j];
        match last_ns_index(servers, &record.name) {
            Some(idx) => {
                match &record.data {
                    crate::record::ResourceData::A(ip) => {
                        let name = servers[idx].name.clone();
                        let v6 = servers[idx].ipv6addr;
                        let port = servers[idx].port;
                        servers[idx] = DNSServer {
                            name,
                            ipv4addr: Some(*ip),
                            ipv6addr: v6,
                            port,
                        };
                        proof {
                            assert(servers.deep_view() =~= spec_apply_glue(pre, sfx[0]));
                        }
                    },
                    crate::record::ResourceData::AAAA(ip) => {
                        let name = servers[idx].name.clone();
                        let v4 = servers[idx].ipv4addr;
                        let port = servers[idx].port;
                        servers[idx] = DNSServer {
                            name,
                            ipv4addr: v4,
                            ipv6addr: Some(*ip),
                            port,
                        };
                        proof {
                            assert(servers.deep_view() =~= spec_apply_glue(pre, sfx[0]));
                        }
                    },
                    _ => {
                        proof {
                            assert(servers.deep_view() =~= spec_apply_glue(pre, sfx[0]));
                        }
                    },
                }
            },
            None => {
                proof {
                    assert(servers.deep_view() =~= spec_apply_glue(pre, sfx[0]));
                }
            },
        }
        j = j + 1;
    }
    proof {
        assert(addi.deep_view().skip(n as int) =~= Seq::<RecordView>::empty());
    }
}

/// The IPv4 addresses of the A records in a reply's answer and
/// authority sections, in order.
fn extract_ip_v4(msg: &Message) -> (r: Vec<u32>)
    ensures
        r@ == spec_a_addrs(spec_relevant(msg@)),
{
    let mut out: Vec<u32> = Vec::new();
    collect_a(&msg.resources, &mut out);
    collect_a(&msg.auth_resources, &mut out);
    proof {
        lemma_a_addrs_concat(msg@.resources, msg@.auth_resources);
    }
    out
}

/// Splitting a record list splits its A addresses.
proof fn lemma_a_addrs_concat(a: Seq<RecordView>, b: Seq<RecordView>)
    ensures
        spec_a_addrs(a + b) == spec_a_addrs(a) + spec_a_addrs(b),
    decreases a.len(),
{
    if a.len() == 0 {
        assert(a + b =~= b);
        assert(spec_a_addrs(a) + spec_a_addrs(b) =~= spec_a_addrs(b));
    } else {
        assert((a + b).drop_first() =~= a.drop_first() + b);
        lemma_a_addrs_concat(a.drop_first(), b);
        if a[0].data is A {
            assert(seq![a[0].data->A_0] + (spec_a_addrs(a.drop_first()) + spec_a_addrs(b)) =~= (
            seq![a[0].data->A_0] + spec_a_addrs(a.drop_first())) + spec_a_addrs(b));
        }
    }
}

/// Appends the A addresses of one record list.
fn collect_a(records: &Vec<ResourceRecord>, out: &mut Vec<u32>)
    ensures
        final(out)@ == old(out)@ + spec_a_addrs(records.deep_view()),
{
    let n = records.len();
    let mut i: usize = 0;
    proof {
        assert(records.deep_view().skip(0) =~= records.deep_view());
    }
    while i < n
        invariant
            i <= n,
            n == records@.len(),
            out@ + spec_a_addrs(records.deep_view().skip(i as int)) =~= old(out)@ + spec_a_addrs(
                records.deep_view(),
            ),
        decreases n - i,
    {
        let ghost sfx = records.deep_view().skip(i as int);
        let ghost pre = out@;
        proof {
            assert(sfx[0] == records.deep_view()[i as int]);
            assert(sfx.drop_first() =~= records.deep_view().skip(i + 1));
        }
        match &records[i].data {
            crate::record::ResourceData::A(ip) => {
                out.push(*ip);
                proof {
                    assert(pre.push(sfx[0].data->A_0) + spec_a_addrs(sfx.drop_first()) =~= pre
                        + spec_a_addrs(sfx));
                }
            },
            _ => {
            },
        }
        i = i + 1;
    }
    proof {
        assert(records.deep_view().skip(n as int) =~= Seq::<RecordView>::empty());
        assert(out@ + spec_a_addrs(Seq::<RecordView>::empty()) =~= out@);
    }
}

/// What the resolver asks of its caller next: send the current
/// question to a server and hand back the reply, or stop.
pub enum ResolveAction {
    /// Send the current frame's question to this server and call
    /// `on_reply` with the parsed answer, or `on_timeout` if none
    /// comes back in time.
    Query(DNSServer),
    /// Resolution succeeded; this is the terminal reply.
    Done(Message),
    /// Resolution failed; no partial answer is returned.
    Failed(ResolutionError),
}

/// The mathematical content of the resolver's state.
pub struct ResolverView {
    pub frames: Seq<QuestionView>,
    pub counter: u32,
    pub retries: u32,
    pub current: Option<ServerView>,
}

/// One iterative resolution in progress. The first frame holds the
/// client's question; each further frame is a nested lookup for a
/// glue-less delegation server's own address. One budget counts every
/// query across all frames.
pub struct IterativeResolver {
    frames: Vec<Question>,
    counter: u32,
    retries: u32,
    current: Option<DNSServer>,
}

impl View for IterativeResolver {
    type V = ResolverView;

    closed spec fn view(&self) -> ResolverView {
        ResolverView {
            frames: self.frames.deep_view(),
            counter: self.counter,
            retries: self.retries,
            current: match self.current {
                Some(s) => Some(s@),
                None => None,
            },
        }
    }
}

impl IterativeResolver {
    /// The state is sound: at least the client's frame, nesting below
    /// its cap, and the iteration budget never overspent.
    pub open spec fn inv(&self) -> bool {
        &&& 1 <= self@.frames.len() <= MAX_NESTED
        &&& self@.counter <= MAX_ITER_FORWARD
    }

    /// Starts resolving a question: the first action queries a
    /// uniformly chosen root server, which always has an address.
    pub fn begin(question: Question) -> (r: (IterativeResolver, ResolveAction))
        ensures
            r.0.inv(),
            r.0@.frames == seq![question@],
            r.0@.counter == 0,
            r.1 matches ResolveAction::Query(s) && is_root_server(s@) && s@.ipv4addr is Some
                && s@.port == 53 && r.0@.current == Some(s@),
    {
        let roots = root_servers();
        proof {
            assert(roots.deep_view().len() == roots@.len());
        }
        let idx = random_below(roots.len());
        let server = roots[idx].clone();
        proof {
            assert(roots.deep_view()[idx as int] == roots@[idx as int]@);
            assert(server@ == crate::common::spec_root_servers()[idx as int]);
        }
        let mut frames: Vec<Question> = Vec::new();
        frames.push(question);
        proof {
            assert(frames.deep_view() =~= seq![frames@[0].deep_view()]);
        }
        let state = IterativeResolver {
            frames,
            counter: 0,
            retries: 0,
            current: Some(server.clone()),
        };
        (state, ResolveAction::Query(server))
    }

    /// Retries the current query a bounded number of times; once the
    /// retries are spent, the resolution fails rather than hanging on
    /// an unresponsive upstream server.
    pub fn on_timeout(&mut self) -> (r: ResolveAction)
        requires
            old(self).inv(),
        ensures
            final(self).inv(),
            old(self)@.retries < 2 && old(self)@.current is Some ==> (r matches
                ResolveAction::Query(s) && Some(s@) == old(self)@.current && final(self)@ == (
            ResolverView { retries: (old(self)@.retries + 1) as u32, ..old(self)@ })),
            old(self)@.retries >= 2 || old(self)@.current is None ==> (r matches
                ResolveAction::Failed(e) && e == ResolutionError::TransportFailure && final(self)@ == old(self)@),
    {
        if self.retries < 2 {
            match &self.current {
                Some(server) => {
                    let s = server.clone();
                    self.retries = self.retries + 1;
                    return ResolveAction::Query(s);
                },
                None => {
                    return ResolveAction::Failed(ResolutionError::TransportFailure);
                },
            }
        }
        ResolveAction::Failed(ResolutionError::TransportFailure)
    }

    /// The question of the frame currently being resolved: the
    /// client's question, or, inside a nested lookup, the pending
    /// delegation server's own name. This is the question every
    /// `Query` action's server must be asked.
    pub fn current_question(&self) -> (r: Option<Question>)
        ensures
            self@.frames.len() >= 1 ==> (r matches Some(q) && q@ == self@.frames.last()),
            self@.frames.len() == 0 ==> r is None,
    {
        let n = self.frames.len();
        if n == 0 {
            return None;
        }
        let q = self.frames[n - 1].clone();
        proof {
            assert(self.frames.deep_view()[n - 1] == self@.frames.last());
        }
        Some(q)
    }

    /// Consumes one reply and decides the next step.
    ///
    /// If the reply answers the current frame's name: at the client's
    /// frame that reply is the terminal answer; at a nested frame its
    /// first A address revives the parent frame's pending server.
    /// Otherwise the reply is a delegation: its NS candidates (with
    /// glue merged) feed the next query, a candidate without any
    /// address opening one more nested frame seeded from the roots.
    /// Every continuing step spends one unit of the global iteration
    /// budget; a delegation arriving with the budget already spent
    /// fails with `IterationCapExceeded` instead of querying on, so a
    /// server set that only ever delegates cannot make the resolver
    /// loop.
    pub fn on_reply(&mut self, reply: Message) -> (r: ResolveAction)
        requires
            old(self).inv(),
        ensures
            final(self).inv(),
            ({
                let rel = spec_relevant(reply@);
                let res = spec_matching_resources(rel, old(self)@.frames.last().name);
                let cands = spec_merge_glue(spec_ns_servers(rel), reply@.addi_resources);
                let addrs = spec_a_addrs(rel);
                let depth = old(self)@.frames.len();
                &&& (r is Done <==> res.len() > 0 && depth == 1)
                &&& (r matches ResolveAction::Done(m) ==> m@ == reply@ && final(self)@ == old(self)@)
                &&& (res.len() > 0 && depth > 1 && addrs.len() == 0 ==> (r matches
                    ResolveAction::Failed(e) && e == ResolutionError::NestedResolutionFailure))
                &&& (res.len() > 0 && depth > 1 && addrs.len() > 0 ==> {
                    if old(self)@.counter >= MAX_ITER_FORWARD {
                        r matches ResolveAction::Failed(e) && e
                            == ResolutionError::IterationCapExceeded
                    } else {
                        r matches ResolveAction::Query(s) && s@.name == old(self)@.frames.last().name && s@.ipv4addr == Some(addrs[0]) && s@.port == 53
                            && final(self)@.frames == old(self)@.frames.drop_last() && final(self)@.counter == old(self)@.counter + 1 && final(self)@.current == Some(s@)
                    }
                })
                &&& (res.len() == 0 ==> (r matches ResolveAction::Failed(e) && e
                    == ResolutionError::EmptyCandidateSet <==> cands.len() == 0))
                &&& (res.len() == 0 && cands.len() > 0 && old(self)@.counter >= MAX_ITER_FORWARD
                    ==> (r matches ResolveAction::Failed(e) && e
                    == ResolutionError::IterationCapExceeded))
                &&& (res.len() == 0 && cands.len() > 0 && old(self)@.counter < MAX_ITER_FORWARD
                    ==> {
                    &&& final(self)@.counter == old(self)@.counter + 1
                    &&& (r matches ResolveAction::Query(s) ==> exists|i: int|
                        0 <= i < cands.len() && ((cands[i].ipv4addr is Some || cands[i].ipv6addr
                            is Some) && s@ == cands[i] && final(self)@.frames == old(self)@.frames || (cands[i].ipv4addr is None && cands[i].ipv6addr is None)
                            && is_root_server(s@) && s@.ipv4addr is Some && s@.port == 53
                            && final(self)@.frames == old(self)@.frames.push(
                            QuestionView {
                                name: cands[i].name,
                                record_type: 1,
                                class_code: 1,
                            },
                        )))
                    &&& (r matches ResolveAction::Failed(e) ==> e
                        == ResolutionError::NestingTooDeep && old(self)@.frames.len()
                        >= MAX_NESTED && exists|i: int|
                        0 <= i < cands.len() && (#[trigger] cands[i]).ipv4addr is None
                            && cands[i].ipv6addr is None)
                })
            }),
    {
        let depth = self.frames.len();
        let ans = extract_answer(&reply, &self.frames[depth - 1].name);
        proof {
            assert(self.frames.deep_view()[depth - 1] == self@.frames.last());
        }
        if ans.resources.len() > 0 {
            proof {
                assert(ans.resources.deep_view().len() == ans.resources@.len());
            }
            if depth == 1 {
                return ResolveAction::Done(reply);
            }
            let addrs = extract_ip_v4(&reply);
            if addrs.len() == 0 {
                return ResolveAction::Failed(ResolutionError::NestedResolutionFailure);
            }
            if self.counter >= MAX_ITER_FORWARD {
                return ResolveAction::Failed(ResolutionError::IterationCapExceeded);
            }
            let ip = addrs[0];
            let pending = match self.frames.pop() {
                Some(q) => q,
                None => {
                    return ResolveAction::Failed(ResolutionError::EmptyCandidateSet);
                },
            };
            self.counter = self.counter + 1;
            self.retries = 0;
            let server = DNSServer {
                name: pending.name,
                ipv4addr: Some(ip),
                ipv6addr: None,
                port: 53,
            };
            self.current = Some(server.clone());
            proof {
                assert(self.frames.deep_view() =~= old(self)@.frames.drop_last());
            }
            return ResolveAction::Query(server);
        }
        proof {
            assert(ans.resources.deep_view().len() == ans.resources@.len());
            assert(ans.servers.deep_view().len() == ans.servers@.len());
        }
        if ans.servers.len() == 0 {
            return ResolveAction::Failed(ResolutionError::EmptyCandidateSet);
        }
        if self.counter >= MAX_ITER_FORWARD {
            return ResolveAction::Failed(ResolutionError::IterationCapExceeded);
        }
        self.counter = self.counter + 1;
        self.retries = 0;
        let idx = random_below(ans.servers.len());
        let candidate = ans.servers[idx].clone();
        proof {
            assert(ans.servers.deep_view()[idx as int] == ans.servers@[idx as int]@);
            assert(candidate@ == spec_merge_glue(
                spec_ns_servers(spec_relevant(reply@)),
                reply@.addi_resources,
            )[idx as int]);
        }
        let has_v4 = candidate.ipv4addr.is_some();
        let has_v6 = candidate.ipv6addr.is_some();
        if has_v4 || has_v6 {
            self.current = Some(candidate.clone());
            proof {
                assert(candidate@ == spec_merge_glue(
                    spec_ns_servers(spec_relevant(reply@)),
                    reply@.addi_resources,
                )[idx as int]);
            }
            return ResolveAction::Query(candidate);
        }
        if self.frames.len() >= MAX_NESTED {
            proof {
                let cands = spec_merge_glue(
                    spec_ns_servers(spec_relevant(reply@)),
                    reply@.addi_resources,
                );
                assert(cands[idx as int].ipv4addr is None && cands[idx as int].ipv6addr is None);
            }
            return ResolveAction::Failed(ResolutionError::NestingTooDeep);
        }
        let ghost pre_frames = self.frames.deep_view();
        let nested = Question::new(candidate.name, FlagRecordType::A);
        self.frames.push(nested);
        proof {
            assert(self.frames.deep_view() =~= pre_frames.push(
                self.frames@[self.frames@.len() - 1].deep_view(),
            ));
        }
        let roots = root_servers();
        proof {
            assert(roots.deep_view().len() == roots@.len());
        }
        let ridx = random_below(roots.len());
        let server = roots[ridx].clone();
        proof {
            assert(roots.deep_view()[ridx as int] == roots@[ridx as int]@);
            assert(server@ == crate::common::spec_root_servers()[ridx as int]);
        }
        self.current = Some(server.clone());
        ResolveAction::Query(server)
    }
}

} // verus!
