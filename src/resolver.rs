use vstd::prelude::*;

use crate::dns::{
    first_a, ns_pairs, resolved_ns, unresolved_ns, Header, Packet, PacketView, QueryType,
    Question, QuestionView, ResponseCode,
};
use crate::packet::DnsError;

verus! {

/// Address of the root name server that every resolution starts from.
pub const ROOT_SERVER: [u8; 4] = [198, 41, 0, 4];

/// Port that name servers listen on.
pub const DNS_PORT: u16 = 53;

/// Transaction id of outgoing queries.
pub const QUERY_ID: u16 = 6666;

/// Most lookups that may be open at once: the outer one and the lookups of
/// name-server names nested in it.
pub const MAX_DEPTH: usize = 8;

/// The root server's address, as a sequence of octets.
pub open spec fn root_server() -> Seq<u8> {
    seq![198u8, 41u8, 0u8, 4u8]
}

/// What to do with a reply to a lookup.
#[derive(Debug)]
pub enum Step {
    /// The reply is the lookup's result.
    Answer,
    /// Ask the same question of this server next.
    NextServer([u8; 4]),
    /// First find the address of this name server.
    ResolveHost(String),
}

pub enum StepView {
    Answer,
    NextServer(Seq<u8>),
    ResolveHost(Seq<char>),
}

impl View for Step {
    type V = StepView;

    open spec fn view(&self) -> StepView {
        match self {
            Step::Answer => StepView::Answer,
            Step::NextServer(a) => StepView::NextServer(a@),
            Step::ResolveHost(h) => StepView::ResolveHost(h@),
        }
    }
}

/// The decision on a reply to a lookup of `qname`: an answer without error,
/// or a name that does not exist, ends it; else a delegation with glue names
/// the next server; else a delegation without glue asks for its server's
/// address; else the reply is all there is.
pub open spec fn decide(reply: PacketView, qname: Seq<char>) -> StepView {
    let pairs = ns_pairs(reply.authorities, qname);
    if reply.answers.len() > 0 && reply.header.rcode == ResponseCode::NOERROR {
        StepView::Answer
    } else if reply.header.rcode == ResponseCode::NXDOMAIN {
        StepView::Answer
    } else if resolved_ns(pairs, reply.additions, 0) is Some {
        StepView::NextServer(resolved_ns(pairs, reply.additions, 0)->0)
    } else if unresolved_ns(pairs, reply.additions, 0) is Some {
        StepView::ResolveHost(unresolved_ns(pairs, reply.additions, 0)->0)
    } else {
        StepView::Answer
    }
}

/// Decides what a reply to a lookup of `qname` calls for.
pub fn next_step(reply: &Packet, qname: &str) -> (r: Step)
    ensures
        r@ == decide(reply@, qname@),
{
    if reply.answers.len() > 0 && reply.header.rcode == ResponseCode::NOERROR {
        return Step::Answer;
    }
    if reply.header.rcode == ResponseCode::NXDOMAIN {
        return Step::Answer;
    }
    let resolved = reply.get_resolved_ns(qname);
    if let Some(a) = resolved {
        return Step::NextServer(a);
    }
    match reply.get_unresolved_ns(qname) {
        Some(host) => Step::ResolveHost(host),
        None => Step::Answer,
    }
}


/// One open lookup: a question, the server it goes to next, and, while a
/// nested lookup finds a name server's address, the reply that led to it.
#[derive(Debug)]
pub struct Lookup {
    pub qname: String,
    pub qtype: QueryType,
    pub server: [u8; 4],
    pub pending: Option<Packet>,
}

pub struct LookupView {
    pub qname: Seq<char>,
    pub qtype: QueryType,
    pub server: Seq<u8>,
    pub pending: Option<PacketView>,
}

impl View for Lookup {
    type V = LookupView;

    open spec fn view(&self) -> LookupView {
        LookupView {
            qname: self.qname@,
            qtype: self.qtype,
            server: self.server@,
            pending: match self.pending {
                Some(p) => Some(p@),
                None => None,
            },
        }
    }
}

/// What the resolution asks of its caller next.
#[derive(Debug)]
pub enum Action {
    /// Send this question to `server` on port 53 and hand back the reply.
    Query { qname: String, qtype: QueryType, server: [u8; 4] },
    /// The resolution is over with this message.
    Done(Packet),
    /// The resolution is over and failed.
    Fail(DnsError),
}

pub enum ActionView {
    Query { qname: Seq<char>, qtype: QueryType, server: Seq<u8> },
    Done(PacketView),
    Fail(DnsError),
}

impl View for Action {
    type V = ActionView;

    open spec fn view(&self) -> ActionView {
        match self {
            Action::Query { qname, qtype, server } => ActionView::Query {
                qname: qname@,
                qtype: *qtype,
                server: server@,
            },
            Action::Done(p) => ActionView::Done(p@),
            Action::Fail(e) => ActionView::Fail(*e),
        }
    }
}

pub open spec fn query_of(l: LookupView) -> ActionView {
    ActionView::Query { qname: l.qname, qtype: l.qtype, server: l.server }
}

/// The lookup at the top of `frames` ended with `result`: it closes, and its
/// result goes to the lookup that opened it. There, an A answer is the next
/// server to ask; without one, that lookup ends too, with the reply that it
/// was waiting on.
pub open spec fn deliver(frames: Seq<LookupView>, result: PacketView) -> (Seq<LookupView>, ActionView)
    decreases frames.len(),
{
    if frames.len() <= 1 {
        (seq![], ActionView::Done(result))
    } else {
        let rest = frames.drop_last();
        let parent = rest.last();
        match first_a(result.answers, 0) {
            Some(a) => {
                let next = LookupView { server: a, pending: None, ..parent };
                (rest.drop_last().push(next), query_of(next))
            },
            None => match parent.pending {
                Some(p) => deliver(rest, p),
                None => (seq![], ActionView::Fail(DnsError::TooDeep)),
            },
        }
    }
}

/// How the lookups change, and what is asked next, when `reply` comes back
/// for the lookup at the top of `frames`.
pub open spec fn transition(frames: Seq<LookupView>, reply: PacketView) -> (Seq<LookupView>, ActionView) {
    let top = frames.last();
    match decide(reply, top.qname) {
        StepView::Answer => deliver(frames, reply),
        StepView::NextServer(a) => {
            let next = LookupView { server: a, ..top };
            (frames.drop_last().push(next), query_of(next))
        },
        StepView::ResolveHost(h) => if frames.len() >= MAX_DEPTH {
            (seq![], ActionView::Fail(DnsError::TooDeep))
        } else {
            let nested = LookupView {
                qname: h,
                qtype: QueryType::A,
                server: root_server(),
                pending: None,
            };
            (
                frames.drop_last().push(LookupView { pending: Some(reply), ..top }).push(nested),
                query_of(nested),
            )
        },
    }
}

/// Every open lookup but the innermost waits, with the reply that made it
/// open the next one.
pub open spec fn frames_wf(frames: Seq<LookupView>) -> bool {
    forall|i: int| 0 <= i < frames.len() - 1 ==> (#[trigger] frames[i]).pending is Some
}

proof fn lemma_deliver_wf(frames: Seq<LookupView>, result: PacketView)
    requires
        frames_wf(frames),
    ensures
        frames_wf(deliver(frames, result).0),
    decreases frames.len(),
{
    if frames.len() > 1 {
        let rest = frames.drop_last();
        assert(frames_wf(rest)) by {
            assert forall|i: int| 0 <= i < rest.len() - 1 implies (#[trigger] rest[i]).pending is Some by {
                assert(rest[i] == frames[i]);
            }
        }
        let parent = rest.last();
        match first_a(result.answers, 0) {
            Some(a) => {
                let next = LookupView { server: a, pending: None, ..parent };
                let f2 = rest.drop_last().push(next);
                assert forall|i: int| 0 <= i < f2.len() - 1 implies (#[trigger] f2[i]).pending is Some by {
                    assert(f2[i] == frames[i]);
                }
            },
            None => match parent.pending {
                Some(p) => lemma_deliver_wf(rest, p),
                None => {},
            },
        }
    }
}

/// Replies keep the lookups well formed.
pub proof fn lemma_transition_wf(frames: Seq<LookupView>, reply: PacketView)
    requires
        frames.len() > 0,
        frames_wf(frames),
    ensures
        frames_wf(transition(frames, reply).0),
{
    let top = frames.last();
    match decide(reply, top.qname) {
        StepView::Answer => lemma_deliver_wf(frames, reply),
        StepView::NextServer(a) => {
            let f2 = frames.drop_last().push(LookupView { server: a, ..top });
            assert forall|i: int| 0 <= i < f2.len() - 1 implies (#[trigger] f2[i]).pending is Some by {
                assert(f2[i] == frames[i]);
            }
        },
        StepView::ResolveHost(h) => {
            if frames.len() < MAX_DEPTH {
                let waiting = LookupView { pending: Some(reply), ..top };
                let nested = LookupView {
                    qname: h,
                    qtype: QueryType::A,
                    server: root_server(),
                    pending: None,
                };
                let f2 = frames.drop_last().push(waiting).push(nested);
                assert forall|i: int| 0 <= i < f2.len() - 1 implies (#[trigger] f2[i]).pending is Some by {
                    if i < frames.len() - 1 {
                        assert(f2[i] == frames[i]);
                    } else {
                        assert(f2[i] == waiting);
                    }
                }
            }
        },
    }
}

/// A recursive resolution in progress: the open lookups, the outermost first.
pub struct Resolution {
    frames: Vec<Lookup>,
}

pub open spec fn lookup_views(ls: Seq<Lookup>) -> Seq<LookupView> {
    ls.map_values(|l: Lookup| l@)
}

impl Resolution {
    pub closed spec fn frames(&self) -> Seq<LookupView> {
        lookup_views(self.frames@)
    }

    /// Every open lookup but the innermost waits on a nested one.
    pub open spec fn wf(&self) -> bool {
        frames_wf(self.frames())
    }

    /// Whether the resolution still waits for a reply.
    pub open spec fn is_open(&self) -> bool {
        self.frames().len() > 0
    }

    /// Starts resolving `qname` of type `qtype` at the root server; the
    /// action returned is the first query.
    pub fn new(qname: String, qtype: QueryType) -> (r: (Resolution, Action))
        ensures
            r.0.wf(),
            r.0.frames() == seq![LookupView { qname: qname@, qtype, server: root_server(), pending: None }],
            r.1@ == query_of(r.0.frames()[0]),
    {
        let first = Lookup { qname: qname.clone(), qtype, server: ROOT_SERVER, pending: None };
        assert(ROOT_SERVER@ =~= root_server());
        let mut frames = Vec::new();
        frames.push(first);
        let r = Resolution { frames };
        assert(r.frames() =~= seq![LookupView { qname: qname@, qtype, server: root_server(), pending: None }]);
        (r, Action::Query { qname, qtype, server: ROOT_SERVER })
    }

    pub fn is_done(&self) -> (r: bool)
        ensures
            r == !self.is_open(),
    {
        self.frames.len() == 0
    }

    /// Closes the lookup at the top with `result` and passes it on.
    fn deliver(&mut self, outcome: Packet) -> (r: Action)
        requires
            old(self).frames().len() > 0,
            old(self).wf(),
        ensures
            (final(self).frames(), r@) == deliver(old(self).frames(), outcome@),
    {
        let ghost target = deliver(old(self).frames(), outcome@);
        let mut result = outcome;
        loop
            invariant
                target == deliver(old(self).frames(), outcome@),
                self.frames().len() > 0,
                self.wf(),
                deliver(self.frames(), result@) == target,
            decreases self.frames@.len(),
        {
            let ghost f = self.frames();
            if self.frames.len() <= 1 {
                self.frames = Vec::new();
                assert(self.frames() =~= seq![]);
                return Action::Done(result);
            }
            let _ = self.frames.pop();
            let parent = self.frames.pop();
            let parent = match parent {
                Some(p) => p,
                None => {
                    return Action::Fail(DnsError::TooDeep);
                },
            };
            proof {
                assert(self.frames() =~= f.drop_last().drop_last());
                assert(parent@ == f.drop_last().last());
            }
            match result.get_random_a() {
                Some(a) => {
                    let action = Action::Query {
                        qname: parent.qname.clone(),
                        qtype: parent.qtype,
                        server: a,
                    };
                    let ghost before = self.frames();
                    let next = Lookup { qname: parent.qname, qtype: parent.qtype, server: a, pending: None };
                    self.frames.push(next);
                    assert(self.frames() =~= before.push(next@));
                    return action;
                },
                None => match parent.pending {
                    Some(p) => {
                        let ghost old_result = result@;
                        proof {
                            assert(deliver(f, old_result) == deliver(f.drop_last(), p@));
                        }
                        result = p;
                        let ghost before = self.frames();
                        let back = Lookup {
                            qname: parent.qname,
                            qtype: parent.qtype,
                            server: parent.server,
                            pending: None,
                        };
                        self.frames.push(back);
                        proof {
                            assert(self.frames() =~= before.push(back@));
                            assert(self.frames().drop_last() =~= f.drop_last().drop_last());
                            assert(deliver(self.frames(), p@) == deliver(f.drop_last(), p@));
                        }
                    },
                    None => {
                        self.frames = Vec::new();
                        assert(self.frames() =~= seq![]);
                        return Action::Fail(DnsError::TooDeep);
                    },
                },
            }
        }
    }

    /// Takes the reply to the last query asked and says what to do next.
    pub fn on_reply(&mut self, reply: Packet) -> (r: Action)
        requires
            old(self).is_open(),
            old(self).wf(),
        ensures
            (final(self).frames(), r@) == transition(old(self).frames(), reply@),
            final(self).wf(),
    {
        proof {
            lemma_transition_wf(self.frames(), reply@);
        }
        let ghost f = self.frames();
        let top = self.frames.pop();
        let top = match top {
            Some(t) => t,
            None => {
                return Action::Fail(DnsError::TooDeep);
            },
        };
        proof {
            assert(self.frames() =~= f.drop_last());
        }
        let step = next_step(&reply, top.qname.as_str());
        match step {
            Step::Answer => {
                let ghost before = self.frames();
                let ghost tv = top@;
                self.frames.push(top);
                proof {
                    assert(self.frames() =~= before.push(tv));
                    assert(self.frames() =~= f);
                }
                self.deliver(reply)
            },
            Step::NextServer(a) => {
                let action = Action::Query { qname: top.qname.clone(), qtype: top.qtype, server: a };
                let ghost before = self.frames();
                let next = Lookup { qname: top.qname, qtype: top.qtype, server: a, pending: top.pending };
                self.frames.push(next);
                assert(self.frames() =~= before.push(next@));
                action
            },
            Step::ResolveHost(host) => {
                if self.frames.len() >= MAX_DEPTH - 1 {
                    self.frames = Vec::new();
                    assert(self.frames() =~= seq![]);
                    return Action::Fail(DnsError::TooDeep);
                }
                let ghost before = self.frames();
                let waiting = Lookup { qname: top.qname, qtype: top.qtype, server: top.server, pending: Some(reply) };
                let ghost wv = waiting@;
                self.frames.push(waiting);
                let nested = Lookup { qname: host.clone(), qtype: QueryType::A, server: ROOT_SERVER, pending: None };
                assert(ROOT_SERVER@ =~= root_server());
                let ghost nv = nested@;
                self.frames.push(nested);
                assert(self.frames() =~= before.push(wv).push(nv));
                Action::Query { qname: host, qtype: QueryType::A, server: ROOT_SERVER }
            },
        }
    }
}


/// The query sent for `qname` of type `qtype`: one question, recursion
/// desired, the fixed transaction id.
pub open spec fn query_view(qname: Seq<char>, qtype: QueryType) -> PacketView {
    PacketView {
        header: Header { id: QUERY_ID, rd: true, qdcount: 1, ..Header::new_spec() },
        questions: seq![QuestionView { name: qname, qtype }],
        answers: seq![],
        authorities: seq![],
        additions: seq![],
    }
}

/// Builds the query for one lookup.
pub fn query_packet(qname: &str, qtype: QueryType) -> (r: Packet)
    ensures
        r@ == query_view(qname@, qtype),
{
    let mut packet = Packet::new();
    packet.header.id = QUERY_ID;
    packet.header.qdcount = 1;
    packet.header.rd = true;
    let question = Question::new(qname.to_owned(), qtype);
    packet.questions.push(question);
    proof {
        assert(packet@.questions =~= seq![QuestionView { name: qname@, qtype }]);
        assert(packet@.answers =~= seq![]);
        assert(packet@.authorities =~= seq![]);
        assert(packet@.additions =~= seq![]);
    }
    packet
}

/// The response to a request with transaction id `id`: with no question,
/// a format error; when resolving the question failed, a server failure;
/// else the question and the result's code and three record sections.
pub open spec fn response_view(
    id: u16,
    question: Option<QuestionView>,
    result: Option<PacketView>,
) -> PacketView {
    let header = Header { id, rd: true, ra: true, response: true, ..Header::new_spec() };
    match question {
        None => PacketView {
            header: Header { rcode: ResponseCode::FORMERR, ..header },
            questions: seq![],
            answers: seq![],
            authorities: seq![],
            additions: seq![],
        },
        Some(q) => match result {
            None => PacketView {
                header: Header { rcode: ResponseCode::SERVFAIL, ..header },
                questions: seq![],
                answers: seq![],
                authorities: seq![],
                additions: seq![],
            },
            Some(res) => PacketView {
                header: Header { rcode: res.header.rcode, ..header },
                questions: seq![q],
                answers: res.answers,
                authorities: res.authorities,
                additions: res.additions,
            },
        },
    }
}

/// Builds the response to a request from the question it asked, if any, and
/// the result of resolving it, if that succeeded.
pub fn build_response(id: u16, question: Option<Question>, result: Option<Packet>) -> (r: Packet)
    ensures
        r@ == response_view(
            id,
            match question {
                Some(q) => Some(q@),
                None => None,
            },
            match result {
                Some(p) => Some(p@),
                None => None,
            },
        ),
{
    let mut packet = Packet::new();
    packet.header.id = id;
    packet.header.rd = true;
    packet.header.ra = true;
    packet.header.response = true;
    proof {
        assert(packet@.questions =~= seq![]);
        assert(packet@.answers =~= seq![]);
        assert(packet@.authorities =~= seq![]);
        assert(packet@.additions =~= seq![]);
    }
    match question {
        None => {
            packet.header.rcode = ResponseCode::FORMERR;
        },
        Some(q) => match result {
            None => {
                packet.header.rcode = ResponseCode::SERVFAIL;
            },
            Some(res) => {
                packet.header.rcode = res.header.rcode;
                packet.questions.push(q);
                packet.answers = res.answers;
                packet.authorities = res.authorities;
                packet.additions = res.additions;
                proof {
                    assert(packet@.questions =~= seq![q@]);
                }
            },
        },
    }
    packet
}

} // verus!
