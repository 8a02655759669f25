//! The payloads carried by requests and responses, and their binary layout.
//!
//! A payload is a big-endian `u32` variant tag followed by the variant's
//! fields. Integers are written big-endian at their width; a byte string as its
//! length (`u64`) followed by its bytes; a list as its length (`u64`) followed
//! by its items. Text travels as UTF-8 bytes.
use vstd::prelude::*;
use crate::bytes::{
    be16, be32, be64, lemma_be16_of, lemma_be32_of, lemma_be64_of, lemma_u16_round_trip, lemma_u32_round_trip, lemma_u64_round_trip, u16_of,
    u32_of, u64_of, push_u16, push_u32, push_u64, read_u16, read_u32, read_u64,
};
use crate::error::ProtocolError;

verus! {

/// Asks the agent to describe itself.
#[derive(Debug, Clone, PartialEq, Eq)]
pub struct AgentInfoRequest {}

/// Asks for the electricity bill of a dormitory room.
#[derive(Debug, Clone, PartialEq, Eq)]
pub struct ElectricityBillRequest {
    pub room: Vec<u8>,
}

/// Asks for one page of the campus activity list.
#[derive(Debug, Clone, PartialEq, Eq)]
pub struct ActivityListRequest {
    pub count: u16,
    pub index: u16,
}

/// Asks for the course scores of a student in one term.
#[derive(Debug, Clone, PartialEq, Eq)]
pub struct CourseScoreRequest {
    pub account: Vec<u8>,
    pub password: Vec<u8>,
    pub term: u16,
}

/// What the agent says of itself.
#[derive(Debug, Clone, PartialEq, Eq)]
pub struct AgentInfo {
    pub name: Vec<u8>,
}

/// The electricity balance of a room, in hundredths of the currency unit.
#[derive(Debug, Clone, PartialEq, Eq)]
pub struct ElectricityBill {
    pub room: Vec<u8>,
    pub balance: u64,
}

/// One campus activity.
#[derive(Debug, Clone, PartialEq, Eq)]
pub struct Activity {
    pub id: u32,
    pub title: Vec<u8>,
}

/// The score of one course.
#[derive(Debug, Clone, PartialEq, Eq)]
pub struct CourseScore {
    pub course: Vec<u8>,
    pub score: u16,
}

/// A request body sent to the agent.
#[derive(Debug, Clone, PartialEq, Eq)]
pub enum RequestPayload {
    AgentInfo(AgentInfoRequest),
    ElectricityBill(ElectricityBillRequest),
    ActivityList(ActivityListRequest),
    ScoreList(CourseScoreRequest),
}

/// A response body sent back by the agent, paired by position with
/// [`RequestPayload`].
#[derive(Debug, Clone, PartialEq, Eq)]
pub enum ResponsePayload {
    AgentInfo(AgentInfo),
    ElectricityBill(ElectricityBill),
    ActivityList(Vec<Activity>),
    ScoreList(Vec<CourseScore>),
}

/// The value of a request payload, with byte strings as sequences.
pub enum RequestView {
    AgentInfo,
    ElectricityBill { room: Seq<u8> },
    ActivityList { count: u16, index: u16 },
    ScoreList { account: Seq<u8>, password: Seq<u8>, term: u16 },
}

/// The value of a response payload, with byte strings as sequences.
pub enum ResponseView {
    AgentInfo { name: Seq<u8> },
    ElectricityBill { room: Seq<u8>, balance: u64 },
    ActivityList { activities: Seq<(u32, Seq<u8>)> },
    ScoreList { scores: Seq<(Seq<u8>, u16)> },
}

impl View for Activity {
    type V = (u32, Seq<u8>);

    open spec fn view(&self) -> (u32, Seq<u8>) {
        (self.id, self.title@)
    }
}

impl View for CourseScore {
    type V = (Seq<u8>, u16);

    open spec fn view(&self) -> (Seq<u8>, u16) {
        (self.course@, self.score)
    }
}

pub open spec fn activities_view(v: Seq<Activity>) -> Seq<(u32, Seq<u8>)> {
    v.map_values(|a: Activity| a@)
}

pub open spec fn scores_view(v: Seq<CourseScore>) -> Seq<(Seq<u8>, u16)> {
    v.map_values(|c: CourseScore| c@)
}

impl View for RequestPayload {
    type V = RequestView;

    open spec fn view(&self) -> RequestView {
        match self {
            RequestPayload::AgentInfo(_) => RequestView::AgentInfo,
            RequestPayload::ElectricityBill(r) => RequestView::ElectricityBill { room: r.room@ },
            RequestPayload::ActivityList(r) => RequestView::ActivityList {
                count: r.count,
                index: r.index,
            },
            RequestPayload::ScoreList(r) => RequestView::ScoreList {
                account: r.account@,
                password: r.password@,
                term: r.term,
            },
        }
    }
}

impl View for ResponsePayload {
    type V = ResponseView;

    open spec fn view(&self) -> ResponseView {
        match self {
            ResponsePayload::AgentInfo(a) => ResponseView::AgentInfo { name: a.name@ },
            ResponsePayload::ElectricityBill(b) => ResponseView::ElectricityBill {
                room: b.room@,
                balance: b.balance,
            },
            ResponsePayload::ActivityList(v) => ResponseView::ActivityList {
                activities: activities_view(v@),
            },
            ResponsePayload::ScoreList(v) => ResponseView::ScoreList { scores: scores_view(v@) },
        }
    }
}

// ---- layout ----

/// A byte string: its length, then its bytes.
pub open spec fn enc_bytes(b: Seq<u8>) -> Seq<u8> {
    be64(b.len() as u64) + b
}

pub open spec fn enc_activity(a: (u32, Seq<u8>)) -> Seq<u8> {
    be32(a.0) + enc_bytes(a.1)
}

pub open spec fn enc_score(c: (Seq<u8>, u16)) -> Seq<u8> {
    enc_bytes(c.0) + be16(c.1)
}

pub open spec fn enc_activities(l: Seq<(u32, Seq<u8>)>) -> Seq<u8>
    decreases l.len(),
{
    if l.len() == 0 {
        Seq::empty()
    } else {
        enc_activity(l[0]) + enc_activities(l.skip(1))
    }
}

pub open spec fn enc_scores(l: Seq<(Seq<u8>, u16)>) -> Seq<u8>
    decreases l.len(),
{
    if l.len() == 0 {
        Seq::empty()
    } else {
        enc_score(l[0]) + enc_scores(l.skip(1))
    }
}

/// The bytes of a request payload.
pub open spec fn request_bytes(p: RequestView) -> Seq<u8> {
    match p {
        RequestView::AgentInfo => be32(0),
        RequestView::ElectricityBill { room } => be32(1) + enc_bytes(room),
        RequestView::ActivityList { count, index } => be32(2) + be16(count) + be16(index),
        RequestView::ScoreList { account, password, term } => be32(3) + enc_bytes(account)
            + enc_bytes(password) + be16(term),
    }
}

/// The bytes of a response payload.
pub open spec fn response_bytes(p: ResponseView) -> Seq<u8> {
    match p {
        ResponseView::AgentInfo { name } => be32(0) + enc_bytes(name),
        ResponseView::ElectricityBill { room, balance } => be32(1) + enc_bytes(room) + be64(
            balance,
        ),
        ResponseView::ActivityList { activities: items } => be32(2) + be64(items.len() as u64)
            + enc_activities(items),
        ResponseView::ScoreList { scores: items } => be32(3) + be64(items.len() as u64) + enc_scores(items),
    }
}

// ---- parsing: each step yields a value and the bytes after it ----

pub open spec fn parse_u16(s: Seq<u8>) -> Option<(u16, Seq<u8>)> {
    if s.len() < 2 {
        None
    } else {
        Some((u16_of(s), s.skip(2)))
    }
}

pub open spec fn parse_u32(s: Seq<u8>) -> Option<(u32, Seq<u8>)> {
    if s.len() < 4 {
        None
    } else {
        Some((u32_of(s), s.skip(4)))
    }
}

pub open spec fn parse_u64(s: Seq<u8>) -> Option<(u64, Seq<u8>)> {
    if s.len() < 8 {
        None
    } else {
        Some((u64_of(s), s.skip(8)))
    }
}

pub open spec fn parse_bytes(s: Seq<u8>) -> Option<(Seq<u8>, Seq<u8>)> {
    match parse_u64(s) {
        None => None,
        Some((n, r)) => if r.len() < n {
            None
        } else {
            Some((r.take(n as int), r.skip(n as int)))
        },
    }
}

#[verifier::opaque]
pub open spec fn parse_activity(s: Seq<u8>) -> Option<((u32, Seq<u8>), Seq<u8>)> {
    match parse_u32(s) {
        None => None,
        Some((id, r)) => match parse_bytes(r) {
            None => None,
            Some((title, r2)) => Some(((id, title), r2)),
        },
    }
}

#[verifier::opaque]
pub open spec fn parse_score(s: Seq<u8>) -> Option<((Seq<u8>, u16), Seq<u8>)> {
    match parse_bytes(s) {
        None => None,
        Some((course, r)) => match parse_u16(r) {
            None => None,
            Some((score, r2)) => Some(((course, score), r2)),
        },
    }
}

pub open spec fn parse_activities(s: Seq<u8>, n: nat) -> Option<(Seq<(u32, Seq<u8>)>, Seq<u8>)>
    decreases n,
{
    if n == 0 {
        Some((Seq::empty(), s))
    } else {
        match parse_activity(s) {
            None => None,
            Some((a, r)) => match parse_activities(r, (n - 1) as nat) {
                None => None,
                Some((l, r2)) => Some((seq![a] + l, r2)),
            },
        }
    }
}

pub open spec fn parse_scores(s: Seq<u8>, n: nat) -> Option<(Seq<(Seq<u8>, u16)>, Seq<u8>)>
    decreases n,
{
    if n == 0 {
        Some((Seq::empty(), s))
    } else {
        match parse_score(s) {
            None => None,
            Some((c, r)) => match parse_scores(r, (n - 1) as nat) {
                None => None,
                Some((l, r2)) => Some((seq![c] + l, r2)),
            },
        }
    }
}

/// The request payload at the start of `s`, if there is one; bytes after
/// it are not part of it.
pub open spec fn parse_request(s: Seq<u8>) -> Option<RequestView> {
    match parse_u32(s) {
        None => None,
        Some((tag, r)) => if tag == 0 {
            Some(RequestView::AgentInfo)
        } else if tag == 1 {
            match parse_bytes(r) {
                Some((room, _)) => Some(RequestView::ElectricityBill { room }),
                _ => None,
            }
        } else if tag == 2 {
            match parse_u16(r) {
                None => None,
                Some((count, r2)) => match parse_u16(r2) {
                    Some((index, _)) => Some(
                        RequestView::ActivityList { count, index },
                    ),
                    _ => None,
                },
            }
        } else if tag == 3 {
            match parse_bytes(r) {
                None => None,
                Some((account, r2)) => match parse_bytes(r2) {
                    None => None,
                    Some((password, r3)) => match parse_u16(r3) {
                        Some((term, _)) => Some(
                            RequestView::ScoreList { account, password, term },
                        ),
                        _ => None,
                    },
                },
            }
        } else {
            None
        },
    }
}

/// The response payload at the start of `s`, if there is one; bytes after
/// it are not part of it.
pub open spec fn parse_response(s: Seq<u8>) -> Option<ResponseView> {
    match parse_u32(s) {
        None => None,
        Some((tag, r)) => if tag == 0 {
            match parse_bytes(r) {
                Some((name, _)) => Some(ResponseView::AgentInfo { name }),
                _ => None,
            }
        } else if tag == 1 {
            match parse_bytes(r) {
                None => None,
                Some((room, r2)) => match parse_u64(r2) {
                    Some((balance, _)) => Some(
                        ResponseView::ElectricityBill { room, balance },
                    ),
                    _ => None,
                },
            }
        } else if tag == 2 {
            match parse_u64(r) {
                None => None,
                Some((n, r2)) => match parse_activities(r2, n as nat) {
                    Some((items, _)) => Some(
                        ResponseView::ActivityList { activities: items },
                    ),
                    _ => None,
                },
            }
        } else if tag == 3 {
            match parse_u64(r) {
                None => None,
                Some((n, r2)) => match parse_scores(r2, n as nat) {
                    Some((items, _)) => Some(ResponseView::ScoreList { scores: items }),
                    _ => None,
                },
            }
        } else {
            None
        },
    }
}

// ---- every layout reads back as what it was made from ----

/// Every byte string and list in `p` can state its length in a `u64`.
pub open spec fn request_fits(p: RequestView) -> bool {
    match p {
        RequestView::AgentInfo => true,
        RequestView::ElectricityBill { room } => room.len() <= u64::MAX,
        RequestView::ActivityList { .. } => true,
        RequestView::ScoreList { account, password, .. } => account.len() <= u64::MAX
            && password.len() <= u64::MAX,
    }
}

/// Every byte string and list in `p` can state its length in a `u64`.
pub open spec fn response_fits(p: ResponseView) -> bool {
    match p {
        ResponseView::AgentInfo { name } => name.len() <= u64::MAX,
        ResponseView::ElectricityBill { room, .. } => room.len() <= u64::MAX,
        ResponseView::ActivityList { activities: items } => items.len() <= u64::MAX && forall|i: int|
            0 <= i < items.len() ==> (#[trigger] items[i]).1.len() <= u64::MAX,
        ResponseView::ScoreList { scores: items } => items.len() <= u64::MAX && forall|i: int|
            0 <= i < items.len() ==> (#[trigger] items[i]).0.len() <= u64::MAX,
    }
}

proof fn lemma_parse_u16(v: u16, rest: Seq<u8>)
    ensures
        parse_u16(be16(v) + rest) == Some((v, rest)),
{
    let s = be16(v) + rest;
    assert(s.skip(2) =~= rest);
    assert(u16_of(s) == u16_of(be16(v)));
    lemma_u16_round_trip(v);
}

proof fn lemma_parse_u32(v: u32, rest: Seq<u8>)
    ensures
        parse_u32(be32(v) + rest) == Some((v, rest)),
{
    let s = be32(v) + rest;
    assert(s.skip(4) =~= rest);
    assert(u32_of(s) == u32_of(be32(v)));
    lemma_u32_round_trip(v);
}

proof fn lemma_parse_u64(v: u64, rest: Seq<u8>)
    ensures
        parse_u64(be64(v) + rest) == Some((v, rest)),
{
    let s = be64(v) + rest;
    assert(s.skip(8) =~= rest);
    assert(u64_of(s) == u64_of(be64(v)));
    lemma_u64_round_trip(v);
}

proof fn lemma_parse_bytes(b: Seq<u8>, rest: Seq<u8>)
    requires
        b.len() <= u64::MAX,
    ensures
        parse_bytes(enc_bytes(b) + rest) == Some((b, rest)),
{
    assert(enc_bytes(b) + rest =~= be64(b.len() as u64) + (b + rest));
    lemma_parse_u64(b.len() as u64, b + rest);
    assert((b + rest).take(b.len() as int) =~= b);
    assert((b + rest).skip(b.len() as int) =~= rest);
}

proof fn lemma_parse_activity(a: (u32, Seq<u8>), rest: Seq<u8>)
    requires
        a.1.len() <= u64::MAX,
    ensures
        parse_activity(enc_activity(a) + rest) == Some((a, rest)),
{
    reveal(parse_activity);
    assert(enc_activity(a) + rest =~= be32(a.0) + (enc_bytes(a.1) + rest));
    lemma_parse_u32(a.0, enc_bytes(a.1) + rest);
    lemma_parse_bytes(a.1, rest);
}

proof fn lemma_parse_score(c: (Seq<u8>, u16), rest: Seq<u8>)
    requires
        c.0.len() <= u64::MAX,
    ensures
        parse_score(enc_score(c) + rest) == Some((c, rest)),
{
    reveal(parse_score);
    assert(enc_score(c) + rest =~= enc_bytes(c.0) + (be16(c.1) + rest));
    lemma_parse_bytes(c.0, be16(c.1) + rest);
    lemma_parse_u16(c.1, rest);
}

proof fn lemma_parse_activities(l: Seq<(u32, Seq<u8>)>, rest: Seq<u8>)
    requires
        forall|i: int| 0 <= i < l.len() ==> (#[trigger] l[i]).1.len() <= u64::MAX,
    ensures
        parse_activities(enc_activities(l) + rest, l.len()) == Some((l, rest)),
    decreases l.len(),
{
    if l.len() > 0 {
        let tail = l.skip(1);
        assert forall|i: int| 0 <= i < tail.len() implies (#[trigger] tail[i]).1.len()
            <= u64::MAX by {
            assert(tail[i] == l[i + 1]);
        }
        lemma_parse_activities(tail, rest);
        let after = enc_activities(tail) + rest;
        assert(enc_activities(l) + rest =~= enc_activity(l[0]) + after);
        lemma_parse_activity(l[0], after);
        assert(parse_activity(enc_activities(l) + rest) == Some((l[0], after)));
        assert(parse_activities(after, (l.len() - 1) as nat) == Some((tail, rest)));
        assert(seq![l[0]] + tail =~= l);
        assert(parse_activities(enc_activities(l) + rest, l.len()) == Some((seq![l[0]] + tail, rest)));
    } else {
        assert(enc_activities(l) + rest =~= rest);
        assert(l =~= Seq::empty());
    }
}

proof fn lemma_parse_scores(l: Seq<(Seq<u8>, u16)>, rest: Seq<u8>)
    requires
        forall|i: int| 0 <= i < l.len() ==> (#[trigger] l[i]).0.len() <= u64::MAX,
    ensures
        parse_scores(enc_scores(l) + rest, l.len()) == Some((l, rest)),
    decreases l.len(),
{
    if l.len() > 0 {
        let tail = l.skip(1);
        assert forall|i: int| 0 <= i < tail.len() implies (#[trigger] tail[i]).0.len()
            <= u64::MAX by {
            assert(tail[i] == l[i + 1]);
        }
        lemma_parse_scores(tail, rest);
        let after = enc_scores(tail) + rest;
        assert(enc_scores(l) + rest =~= enc_score(l[0]) + after);
        lemma_parse_score(l[0], after);
        assert(parse_score(enc_scores(l) + rest) == Some((l[0], after)));
        assert(parse_scores(after, (l.len() - 1) as nat) == Some((tail, rest)));
        assert(seq![l[0]] + tail =~= l);
        assert(parse_scores(enc_scores(l) + rest, l.len()) == Some((seq![l[0]] + tail, rest)));
    } else {
        assert(enc_scores(l) + rest =~= rest);
        assert(l =~= Seq::empty());
    }
}

/// Reading back the bytes of a request payload gives that payload.
pub proof fn lemma_request_layout_round_trip(p: RequestView)
    requires
        request_fits(p),
    ensures
        parse_request(request_bytes(p)) == Some(p),
{
    let e = Seq::<u8>::empty();
    match p {
        RequestView::AgentInfo => {
            assert(be32(0) =~= be32(0) + e);
            lemma_parse_u32(0, e);
        },
        RequestView::ElectricityBill { room } => {
            assert(request_bytes(p) =~= be32(1) + (enc_bytes(room) + e));
            lemma_parse_u32(1, enc_bytes(room) + e);
            lemma_parse_bytes(room, e);
        },
        RequestView::ActivityList { count, index } => {
            assert(request_bytes(p) =~= be32(2) + (be16(count) + (be16(index) + e)));
            lemma_parse_u32(2, be16(count) + (be16(index) + e));
            lemma_parse_u16(count, be16(index) + e);
            lemma_parse_u16(index, e);
        },
        RequestView::ScoreList { account, password, term } => {
            let t = be16(term) + e;
            assert(request_bytes(p) =~= be32(3) + (enc_bytes(account) + (enc_bytes(password) + t)));
            lemma_parse_u32(3, enc_bytes(account) + (enc_bytes(password) + t));
            lemma_parse_bytes(account, enc_bytes(password) + t);
            lemma_parse_bytes(password, t);
            lemma_parse_u16(term, e);
        },
    }
}

/// Reading back the bytes of a response payload gives that payload.
pub proof fn lemma_response_layout_round_trip(p: ResponseView)
    requires
        response_fits(p),
    ensures
        parse_response(response_bytes(p)) == Some(p),
{
    let e = Seq::<u8>::empty();
    match p {
        ResponseView::AgentInfo { name } => {
            assert(response_bytes(p) =~= be32(0) + (enc_bytes(name) + e));
            lemma_parse_u32(0, enc_bytes(name) + e);
            lemma_parse_bytes(name, e);
        },
        ResponseView::ElectricityBill { room, balance } => {
            assert(response_bytes(p) =~= be32(1) + (enc_bytes(room) + (be64(balance) + e)));
            lemma_parse_u32(1, enc_bytes(room) + (be64(balance) + e));
            lemma_parse_bytes(room, be64(balance) + e);
            lemma_parse_u64(balance, e);
        },
        ResponseView::ActivityList { activities: items } => {
            let body = enc_activities(items) + e;
            assert(response_bytes(p) =~= be32(2) + (be64(items.len() as u64) + body));
            lemma_parse_u32(2, be64(items.len() as u64) + body);
            lemma_parse_u64(items.len() as u64, body);
            lemma_parse_activities(items, e);
        },
        ResponseView::ScoreList { scores: items } => {
            let body = enc_scores(items) + e;
            assert(response_bytes(p) =~= be32(3) + (be64(items.len() as u64) + body));
            lemma_parse_u32(3, be64(items.len() as u64) + body);
            lemma_parse_u64(items.len() as u64, body);
            lemma_parse_scores(items, e);
        },
    }
}

/// The byte strings of a payload held in memory can state their lengths.
pub proof fn lemma_request_fits(p: &RequestPayload)
    ensures
        request_fits(p@),
{
    match p {
        RequestPayload::ElectricityBill(r) => {
            assert(r.room.len() == r.room@.len());
        },
        RequestPayload::ScoreList(r) => {
            assert(r.account.len() == r.account@.len());
            assert(r.password.len() == r.password@.len());
        },
        _ => {},
    }
}

/// The byte strings and lists of a payload held in memory can state their
/// lengths.
pub proof fn lemma_response_fits(p: &ResponsePayload)
    ensures
        response_fits(p@),
{
    match p {
        ResponsePayload::AgentInfo(a) => {
            assert(a.name.len() == a.name@.len());
        },
        ResponsePayload::ElectricityBill(b) => {
            assert(b.room.len() == b.room@.len());
        },
        ResponsePayload::ActivityList(v) => {
            assert(v.len() == v@.len());
            let items = activities_view(v@);
            assert forall|i: int| 0 <= i < items.len() implies (#[trigger] items[i]).1.len()
                <= u64::MAX by {
                assert(v@[i].title.len() == v@[i].title@.len());
            }
        },
        ResponsePayload::ScoreList(v) => {
            assert(v.len() == v@.len());
            let items = scores_view(v@);
            assert forall|i: int| 0 <= i < items.len() implies (#[trigger] items[i]).0.len()
                <= u64::MAX by {
                assert(v@[i].course.len() == v@[i].course@.len());
            }
        },
    }
}

// ---- writing ----

fn push_bytes(out: &mut Vec<u8>, b: &Vec<u8>)
    ensures
        final(out)@ == old(out)@ + enc_bytes(b@),
{
    let ghost start = out@;
    push_u64(out, b.len() as u64);
    let mut i: usize = 0;
    while i < b.len()
        invariant
            i <= b@.len(),
            out@ == start + be64(b@.len() as u64) + b@.take(i as int),
        decreases b@.len() - i,
    {
        out.push(b[i]);
        i += 1;
        assert(out@ =~= start + be64(b@.len() as u64) + b@.take(i as int));
    }
    assert(b@.take(i as int) =~= b@);
    assert(out@ =~= start + enc_bytes(b@));
}

fn push_activities(out: &mut Vec<u8>, v: &Vec<Activity>)
    ensures
        final(out)@ == old(out)@ + enc_activities(activities_view(v@)),
{
    let ghost start = out@;
    let ghost l = activities_view(v@);
    let mut i: usize = 0;
    assert(l.skip(0) =~= l);
    assert(out@ + enc_activities(l.skip(0)) =~= start + enc_activities(l));
    while i < v.len()
        invariant
            i <= v@.len(),
            l == activities_view(v@),
            out@ + enc_activities(l.skip(i as int)) == start + enc_activities(l),
        decreases v@.len() - i,
    {
        let ghost before = out@;
        assert(l.skip(i as int).skip(1) =~= l.skip(i + 1));
        push_u32(out, v[i].id);
        push_bytes(out, &v[i].title);
        assert(out@ =~= before + enc_activity(l[i as int]));
        assert(out@ + enc_activities(l.skip(i + 1)) =~= before + enc_activities(l.skip(i as int)));
        i += 1;
    }
    assert(l.skip(i as int) =~= Seq::<(u32, Seq<u8>)>::empty());
    assert(out@ =~= out@ + enc_activities(l.skip(i as int)));
}

fn push_scores(out: &mut Vec<u8>, v: &Vec<CourseScore>)
    ensures
        final(out)@ == old(out)@ + enc_scores(scores_view(v@)),
{
    let ghost start = out@;
    let ghost l = scores_view(v@);
    let mut i: usize = 0;
    assert(l.skip(0) =~= l);
    assert(out@ + enc_scores(l.skip(0)) =~= start + enc_scores(l));
    while i < v.len()
        invariant
            i <= v@.len(),
            l == scores_view(v@),
            out@ + enc_scores(l.skip(i as int)) == start + enc_scores(l),
        decreases v@.len() - i,
    {
        let ghost before = out@;
        assert(l.skip(i as int).skip(1) =~= l.skip(i + 1));
        push_bytes(out, &v[i].course);
        push_u16(out, v[i].score);
        assert(out@ =~= before + enc_score(l[i as int]));
        assert(out@ + enc_scores(l.skip(i + 1)) =~= before + enc_scores(l.skip(i as int)));
        i += 1;
    }
    assert(l.skip(i as int) =~= Seq::<(Seq<u8>, u16)>::empty());
    assert(out@ =~= out@ + enc_scores(l.skip(i as int)));
}

/// The bytes of a request payload: its tag, then its fields.
pub fn encode_request(p: &RequestPayload) -> (r: Vec<u8>)
    ensures
        r@ == request_bytes(p@),
{
    let mut out: Vec<u8> = Vec::new();
    match p {
        RequestPayload::AgentInfo(_) => {
            push_u32(&mut out, 0);
        },
        RequestPayload::ElectricityBill(q) => {
            push_u32(&mut out, 1);
            push_bytes(&mut out, &q.room);
        },
        RequestPayload::ActivityList(q) => {
            push_u32(&mut out, 2);
            push_u16(&mut out, q.count);
            push_u16(&mut out, q.index);
        },
        RequestPayload::ScoreList(q) => {
            push_u32(&mut out, 3);
            push_bytes(&mut out, &q.account);
            push_bytes(&mut out, &q.password);
            push_u16(&mut out, q.term);
        },
    }
    assert(out@ =~= request_bytes(p@));
    out
}

/// The bytes of a response payload: its tag, then its fields.
pub fn encode_response(p: &ResponsePayload) -> (r: Vec<u8>)
    ensures
        r@ == response_bytes(p@),
{
    let mut out: Vec<u8> = Vec::new();
    match p {
        ResponsePayload::AgentInfo(a) => {
            push_u32(&mut out, 0);
            push_bytes(&mut out, &a.name);
        },
        ResponsePayload::ElectricityBill(b) => {
            push_u32(&mut out, 1);
            push_bytes(&mut out, &b.room);
            push_u64(&mut out, b.balance);
        },
        ResponsePayload::ActivityList(v) => {
            push_u32(&mut out, 2);
            push_u64(&mut out, v.len() as u64);
            push_activities(&mut out, v);
        },
        ResponsePayload::ScoreList(v) => {
            push_u32(&mut out, 3);
            push_u64(&mut out, v.len() as u64);
            push_scores(&mut out, v);
        },
    }
    assert(out@ =~= response_bytes(p@));
    out
}

// ---- reading: `pos` is where the next field starts ----

fn take_u16(b: &[u8], pos: usize) -> (r: Option<(u16, usize)>)
    requires
        pos <= b@.len(),
    ensures
        match r {
            None => parse_u16(b@.skip(pos as int)) is None,
            Some((v, next)) => pos <= next <= b@.len() && parse_u16(b@.skip(pos as int)) == Some(
                (v, b@.skip(next as int)),
            ),
        },
{
    if b.len() - pos < 2 {
        None
    } else {
        let v = read_u16(b, pos);
        assert(b@.skip(pos as int).skip(2) =~= b@.skip(pos + 2));
        assert(u16_of(b@.skip(pos as int)) == u16_of(b@.subrange(pos as int, pos + 2)));
        Some((v, pos + 2))
    }
}

fn take_u32(b: &[u8], pos: usize) -> (r: Option<(u32, usize)>)
    requires
        pos <= b@.len(),
    ensures
        match r {
            None => parse_u32(b@.skip(pos as int)) is None,
            Some((v, next)) => pos <= next <= b@.len() && parse_u32(b@.skip(pos as int)) == Some(
                (v, b@.skip(next as int)),
            ),
        },
{
    if b.len() - pos < 4 {
        None
    } else {
        let v = read_u32(b, pos);
        assert(b@.skip(pos as int).skip(4) =~= b@.skip(pos + 4));
        assert(u32_of(b@.skip(pos as int)) == u32_of(b@.subrange(pos as int, pos + 4)));
        Some((v, pos + 4))
    }
}

fn take_u64(b: &[u8], pos: usize) -> (r: Option<(u64, usize)>)
    requires
        pos <= b@.len(),
    ensures
        match r {
            None => parse_u64(b@.skip(pos as int)) is None,
            Some((v, next)) => pos <= next <= b@.len() && parse_u64(b@.skip(pos as int)) == Some(
                (v, b@.skip(next as int)),
            ),
        },
{
    if b.len() - pos < 8 {
        None
    } else {
        let v = read_u64(b, pos);
        assert(b@.skip(pos as int).skip(8) =~= b@.skip(pos + 8));
        assert(u64_of(b@.skip(pos as int)) == u64_of(b@.subrange(pos as int, pos + 8)));
        Some((v, pos + 8))
    }
}

fn take_bytes(b: &[u8], pos: usize) -> (r: Option<(Vec<u8>, usize)>)
    requires
        pos <= b@.len(),
    ensures
        match r {
            None => parse_bytes(b@.skip(pos as int)) is None,
            Some((v, next)) => pos <= next <= b@.len() && parse_bytes(b@.skip(pos as int))
                == Some((v@, b@.skip(next as int))),
        },
{
    let (n, start) = match take_u64(b, pos) {
        None => return None,
        Some(x) => x,
    };
    if ((b.len() - start) as u64) < n {
        return None;
    }
    let end = start + n as usize;
    let mut out: Vec<u8> = Vec::new();
    let mut i: usize = start;
    while i < end
        invariant
            start <= i <= end <= b@.len(),
            out@ == b@.subrange(start as int, i as int),
        decreases end - i,
    {
        out.push(b[i]);
        i += 1;
        assert(out@ =~= b@.subrange(start as int, i as int));
    }
    assert(b@.skip(start as int).take(n as int) =~= out@);
    assert(b@.skip(start as int).skip(n as int) =~= b@.skip(end as int));
    Some((out, end))
}

fn take_activity(b: &[u8], pos: usize) -> (r: Option<(Activity, usize)>)
    requires
        pos <= b@.len(),
    ensures
        match r {
            None => parse_activity(b@.skip(pos as int)) is None,
            Some((a, next)) => pos <= next <= b@.len() && parse_activity(b@.skip(pos as int))
                == Some((a@, b@.skip(next as int))),
        },
{
    reveal(parse_activity);
    let (id, p1) = match take_u32(b, pos) {
        None => return None,
        Some(x) => x,
    };
    let (title, p2) = match take_bytes(b, p1) {
        None => return None,
        Some(x) => x,
    };
    Some((Activity { id, title }, p2))
}

fn take_score(b: &[u8], pos: usize) -> (r: Option<(CourseScore, usize)>)
    requires
        pos <= b@.len(),
    ensures
        match r {
            None => parse_score(b@.skip(pos as int)) is None,
            Some((c, next)) => pos <= next <= b@.len() && parse_score(b@.skip(pos as int))
                == Some((c@, b@.skip(next as int))),
        },
{
    reveal(parse_score);
    let (course, p1) = match take_bytes(b, pos) {
        None => return None,
        Some(x) => x,
    };
    let (score, p2) = match take_u16(b, p1) {
        None => return None,
        Some(x) => x,
    };
    Some((CourseScore { course, score }, p2))
}

fn take_activities(b: &[u8], pos: usize, n: u64) -> (r: Option<(Vec<Activity>, usize)>)
    requires
        pos <= b@.len(),
    ensures
        match r {
            None => parse_activities(b@.skip(pos as int), n as nat) is None,
            Some((v, next)) => pos <= next <= b@.len() && parse_activities(
                b@.skip(pos as int),
                n as nat,
            ) == Some((activities_view(v@), b@.skip(next as int))),
        },
{
    let ghost whole = parse_activities(b@.skip(pos as int), n as nat);
    let mut out: Vec<Activity> = Vec::new();
    let mut at: usize = pos;
    let mut i: u64 = 0;
    assert(activities_view(out@) =~= Seq::<(u32, Seq<u8>)>::empty());
    while i < n
        invariant
            pos <= at <= b@.len(),
            i <= n,
            whole == parse_activities(b@.skip(pos as int), n as nat),
            whole == match parse_activities(b@.skip(at as int), (n - i) as nat) {
                None => None,
                Some((t, r)) => Some((activities_view(out@) + t, r)),
            },
        decreases n - i,
    {
        match take_activity(b, at) {
            None => {
                return None;
            },
            Some((a, next)) => {
                let ghost old_view = activities_view(out@);
                let ghost av = a@;
                out.push(a);
                assert(activities_view(out@) =~= old_view + seq![av]);
                proof {
                    match parse_activities(b@.skip(next as int), (n - i - 1) as nat) {
                        None => {},
                        Some((t, r)) => {
                            assert(old_view + (seq![av] + t) =~= activities_view(out@) + t);
                        },
                    }
                }
                at = next;
                i += 1;
            },
        }
    }
    assert(activities_view(out@) + Seq::empty() =~= activities_view(out@));
    Some((out, at))
}

fn take_scores(b: &[u8], pos: usize, n: u64) -> (r: Option<(Vec<CourseScore>, usize)>)
    requires
        pos <= b@.len(),
    ensures
        match r {
            None => parse_scores(b@.skip(pos as int), n as nat) is None,
            Some((v, next)) => pos <= next <= b@.len() && parse_scores(b@.skip(pos as int), n as nat)
                == Some((scores_view(v@), b@.skip(next as int))),
        },
{
    let ghost whole = parse_scores(b@.skip(pos as int), n as nat);
    let mut out: Vec<CourseScore> = Vec::new();
    let mut at: usize = pos;
    let mut i: u64 = 0;
    assert(scores_view(out@) =~= Seq::<(Seq<u8>, u16)>::empty());
    while i < n
        invariant
            pos <= at <= b@.len(),
            i <= n,
            whole == parse_scores(b@.skip(pos as int), n as nat),
            whole == match parse_scores(b@.skip(at as int), (n - i) as nat) {
                None => None,
                Some((t, r)) => Some((scores_view(out@) + t, r)),
            },
        decreases n - i,
    {
        match take_score(b, at) {
            None => {
                return None;
            },
            Some((c, next)) => {
                let ghost old_view = scores_view(out@);
                let ghost cv = c@;
                out.push(c);
                assert(scores_view(out@) =~= old_view + seq![cv]);
                proof {
                    match parse_scores(b@.skip(next as int), (n - i - 1) as nat) {
                        None => {},
                        Some((t, r)) => {
                            assert(old_view + (seq![cv] + t) =~= scores_view(out@) + t);
                        },
                    }
                }
                at = next;
                i += 1;
            },
        }
    }
    assert(scores_view(out@) + Seq::empty() =~= scores_view(out@));
    Some((out, at))
}

/// The request payload at the start of `b`; `Decode` when the tag is unknown
/// or the bytes are cut short. Bytes after the payload are ignored.
pub fn decode_request(b: &[u8]) -> (r: Result<RequestPayload, ProtocolError>)
    ensures
        match r {
            Ok(p) => parse_request(b@) == Some(p@),
            Err(e) => e == ProtocolError::Decode && parse_request(b@) is None,
        },
{
    assert(b@.skip(0) =~= b@);
    let (tag, p1) = match take_u32(b, 0) {
        None => return Err(ProtocolError::Decode),
        Some(x) => x,
    };
    if tag == 0 {
        Ok(RequestPayload::AgentInfo(AgentInfoRequest {}))
    } else if tag == 1 {
        let (room, _) = match take_bytes(b, p1) {
            None => return Err(ProtocolError::Decode),
            Some(x) => x,
        };
        Ok(RequestPayload::ElectricityBill(ElectricityBillRequest { room }))
    } else if tag == 2 {
        let (count, p2) = match take_u16(b, p1) {
            None => return Err(ProtocolError::Decode),
            Some(x) => x,
        };
        let (index, _) = match take_u16(b, p2) {
            None => return Err(ProtocolError::Decode),
            Some(x) => x,
        };
        Ok(RequestPayload::ActivityList(ActivityListRequest { count, index }))
    } else if tag == 3 {
        let (account, p2) = match take_bytes(b, p1) {
            None => return Err(ProtocolError::Decode),
            Some(x) => x,
        };
        let (password, p3) = match take_bytes(b, p2) {
            None => return Err(ProtocolError::Decode),
            Some(x) => x,
        };
        let (term, _) = match take_u16(b, p3) {
            None => return Err(ProtocolError::Decode),
            Some(x) => x,
        };
        Ok(RequestPayload::ScoreList(CourseScoreRequest { account, password, term }))
    } else {
        Err(ProtocolError::Decode)
    }
}

/// The response payload at the start of `b`; `Decode` when the tag is unknown
/// or the bytes are cut short. Bytes after the payload are ignored.
pub fn decode_response(b: &[u8]) -> (r: Result<ResponsePayload, ProtocolError>)
    ensures
        match r {
            Ok(p) => parse_response(b@) == Some(p@),
            Err(e) => e == ProtocolError::Decode && parse_response(b@) is None,
        },
{
    assert(b@.skip(0) =~= b@);
    let (tag, p1) = match take_u32(b, 0) {
        None => return Err(ProtocolError::Decode),
        Some(x) => x,
    };
    if tag == 0 {
        let (name, _) = match take_bytes(b, p1) {
            None => return Err(ProtocolError::Decode),
            Some(x) => x,
        };
        Ok(ResponsePayload::AgentInfo(AgentInfo { name }))
    } else if tag == 1 {
        let (room, p2) = match take_bytes(b, p1) {
            None => return Err(ProtocolError::Decode),
            Some(x) => x,
        };
        let (balance, _) = match take_u64(b, p2) {
            None => return Err(ProtocolError::Decode),
            Some(x) => x,
        };
        Ok(ResponsePayload::ElectricityBill(ElectricityBill { room, balance }))
    } else if tag == 2 {
        let (n, p2) = match take_u64(b, p1) {
            None => return Err(ProtocolError::Decode),
            Some(x) => x,
        };
        let (items, _) = match take_activities(b, p2, n) {
            None => return Err(ProtocolError::Decode),
            Some(x) => x,
        };
        Ok(ResponsePayload::ActivityList(items))
    } else if tag == 3 {
        let (n, p2) = match take_u64(b, p1) {
            None => return Err(ProtocolError::Decode),
            Some(x) => x,
        };
        let (items, _) = match take_scores(b, p2, n) {
            None => return Err(ProtocolError::Decode),
            Some(x) => x,
        };
        Ok(ResponsePayload::ScoreList(items))
    } else {
        Err(ProtocolError::Decode)
    }
}

/// Decoding the encoding of any request payload gives that payload back.
pub proof fn lemma_request_round_trip(p: RequestPayload)
    ensures
        parse_request(request_bytes(p@)) == Some(p@),
{
    lemma_request_fits(&p);
    lemma_request_layout_round_trip(p@);
}

/// Decoding the encoding of any response payload gives that payload back.
pub proof fn lemma_response_round_trip(p: ResponsePayload)
    ensures
        parse_response(response_bytes(p@)) == Some(p@),
{
    lemma_response_fits(&p);
    lemma_response_layout_round_trip(p@);
}

// ---- whatever parses is the layout of what it parses to ----

proof fn lemma_u16_back(s: Seq<u8>)
    requires
        parse_u16(s) is Some,
    ensures
        s == be16(parse_u16(s).unwrap().0) + parse_u16(s).unwrap().1,
{
    lemma_be16_of(s);
    assert(s =~= s.take(2) + s.skip(2));
}

proof fn lemma_u32_back(s: Seq<u8>)
    requires
        parse_u32(s) is Some,
    ensures
        s == be32(parse_u32(s).unwrap().0) + parse_u32(s).unwrap().1,
{
    lemma_be32_of(s);
    assert(s =~= s.take(4) + s.skip(4));
}

proof fn lemma_u64_back(s: Seq<u8>)
    requires
        parse_u64(s) is Some,
    ensures
        s == be64(parse_u64(s).unwrap().0) + parse_u64(s).unwrap().1,
{
    lemma_be64_of(s);
    assert(s =~= s.take(8) + s.skip(8));
}

proof fn lemma_bytes_back(s: Seq<u8>)
    requires
        parse_bytes(s) is Some,
    ensures
        s == enc_bytes(parse_bytes(s).unwrap().0) + parse_bytes(s).unwrap().1,
{
    lemma_u64_back(s);
    let (n, r) = parse_u64(s)->0;
    assert(r =~= r.take(n as int) + r.skip(n as int));
    assert(s =~= enc_bytes(r.take(n as int)) + r.skip(n as int));
}

proof fn lemma_activity_back(s: Seq<u8>)
    requires
        parse_activity(s) is Some,
    ensures
        s == enc_activity(parse_activity(s).unwrap().0) + parse_activity(s).unwrap().1,
{
    reveal(parse_activity);
    lemma_u32_back(s);
    let r = parse_u32(s).unwrap().1;
    lemma_bytes_back(r);
    let (a, rest) = parse_activity(s)->0;
    assert(s =~= enc_activity(a) + rest);
}

proof fn lemma_score_back(s: Seq<u8>)
    requires
        parse_score(s) is Some,
    ensures
        s == enc_score(parse_score(s).unwrap().0) + parse_score(s).unwrap().1,
{
    reveal(parse_score);
    lemma_bytes_back(s);
    let r = parse_bytes(s).unwrap().1;
    lemma_u16_back(r);
    let (c, rest) = parse_score(s)->0;
    assert(s =~= enc_score(c) + rest);
}

proof fn lemma_activities_back(s: Seq<u8>, n: nat)
    requires
        parse_activities(s, n) is Some,
    ensures
        parse_activities(s, n).unwrap().0.len() == n,
        s == enc_activities(parse_activities(s, n).unwrap().0) + parse_activities(s, n).unwrap().1,
    decreases n,
{
    if n == 0 {
        assert(s =~= enc_activities(Seq::empty()) + s);
    } else {
        lemma_activity_back(s);
        let (a, r) = parse_activity(s)->0;
        lemma_activities_back(r, (n - 1) as nat);
        let (t, r2) = parse_activities(r, (n - 1) as nat)->0;
        let l = seq![a] + t;
        assert(l.skip(1) =~= t);
        assert(l[0] == a);
        assert(s =~= enc_activities(l) + r2);
    }
}

proof fn lemma_scores_back(s: Seq<u8>, n: nat)
    requires
        parse_scores(s, n) is Some,
    ensures
        parse_scores(s, n).unwrap().0.len() == n,
        s == enc_scores(parse_scores(s, n).unwrap().0) + parse_scores(s, n).unwrap().1,
    decreases n,
{
    if n == 0 {
        assert(s =~= enc_scores(Seq::empty()) + s);
    } else {
        lemma_score_back(s);
        let (c, r) = parse_score(s)->0;
        lemma_scores_back(r, (n - 1) as nat);
        let (t, r2) = parse_scores(r, (n - 1) as nat)->0;
        let l = seq![c] + t;
        assert(l.skip(1) =~= t);
        assert(l[0] == c);
        assert(s =~= enc_scores(l) + r2);
    }
}

proof fn lemma_request_short_is_layout(s: Seq<u8>)
    requires
        parse_request(s) is Some,
        parse_u32(s).unwrap().0 < 3,
    ensures
        exists|rest: Seq<u8>| s == request_bytes(parse_request(s).unwrap()) + rest,
{
    lemma_u32_back(s);
    let (tag, r) = parse_u32(s).unwrap();
    let v = parse_request(s).unwrap();
    if tag == 0 {
        assert(v == RequestView::AgentInfo);
        assert(s =~= request_bytes(v) + r);
    } else if tag == 1 {
        lemma_bytes_back(r);
        let (room, r2) = parse_bytes(r).unwrap();
        assert(v == RequestView::ElectricityBill { room });
        assert(s =~= request_bytes(v) + r2);
    } else {
        lemma_u16_back(r);
        let (count, r2) = parse_u16(r).unwrap();
        lemma_u16_back(r2);
        let (index, r3) = parse_u16(r2).unwrap();
        assert(v == RequestView::ActivityList { count, index });
        assert(s =~= request_bytes(v) + r3);
    }
}

#[verifier::rlimit(40)]
proof fn lemma_request_scores_is_layout(s: Seq<u8>)
    requires
        parse_request(s) is Some,
        parse_u32(s).unwrap().0 >= 3,
    ensures
        exists|rest: Seq<u8>| s == request_bytes(parse_request(s).unwrap()) + rest,
{
    lemma_u32_back(s);
    let (tag, r) = parse_u32(s).unwrap();
    assert(tag == 3);
    let v = parse_request(s).unwrap();
    lemma_bytes_back(r);
    let (account, r2) = parse_bytes(r).unwrap();
    lemma_bytes_back(r2);
    let (password, r3) = parse_bytes(r2).unwrap();
    lemma_u16_back(r3);
    let (term, r4) = parse_u16(r3).unwrap();
    assert(v == RequestView::ScoreList { account, password, term });
    assert(s =~= request_bytes(v) + r4);
}

/// Bytes that decode to a request payload start with that payload's layout:
/// the decoder reads back exactly what the encoder writes, and nothing else.
pub proof fn lemma_request_parse_is_layout(s: Seq<u8>)
    requires
        parse_request(s) is Some,
    ensures
        request_bytes(parse_request(s).unwrap()).len() <= s.len(),
        s.take(request_bytes(parse_request(s).unwrap()).len() as int) == request_bytes(
            parse_request(s).unwrap(),
        ),
{
    let e = request_bytes(parse_request(s).unwrap());
    if parse_u32(s).unwrap().0 < 3 {
        lemma_request_short_is_layout(s);
    } else {
        lemma_request_scores_is_layout(s);
    }
    let rest = choose|rest: Seq<u8>| s == e + rest;
    assert(s.take(e.len() as int) =~= e);
}

proof fn lemma_response_list_is_layout(s: Seq<u8>)
    requires
        parse_response(s) is Some,
        parse_u32(s).unwrap().0 >= 2,
    ensures
        exists|rest: Seq<u8>| s == response_bytes(parse_response(s).unwrap()) + rest,
{
    lemma_u32_back(s);
    let (tag, r) = parse_u32(s).unwrap();
    let v = parse_response(s).unwrap();
    lemma_u64_back(r);
    let (n, r2) = parse_u64(r).unwrap();
    if tag == 2 {
        lemma_activities_back(r2, n as nat);
        let (items, r3) = parse_activities(r2, n as nat).unwrap();
        assert(v == ResponseView::ActivityList { activities: items });
        assert(items.len() as u64 == n);
        assert(s =~= response_bytes(v) + r3);
    } else {
        lemma_scores_back(r2, n as nat);
        let (items, r3) = parse_scores(r2, n as nat).unwrap();
        assert(v == ResponseView::ScoreList { scores: items });
        assert(items.len() as u64 == n);
        assert(s =~= response_bytes(v) + r3);
    }
}

proof fn lemma_response_record_is_layout(s: Seq<u8>)
    requires
        parse_response(s) is Some,
        parse_u32(s).unwrap().0 < 2,
    ensures
        exists|rest: Seq<u8>| s == response_bytes(parse_response(s).unwrap()) + rest,
{
    lemma_u32_back(s);
    let (tag, r) = parse_u32(s).unwrap();
    let v = parse_response(s).unwrap();
    lemma_bytes_back(r);
    let (text, r2) = parse_bytes(r).unwrap();
    if tag == 0 {
        assert(v == ResponseView::AgentInfo { name: text });
        assert(s =~= response_bytes(v) + r2);
    } else {
        lemma_u64_back(r2);
        let (balance, r3) = parse_u64(r2).unwrap();
        assert(v == ResponseView::ElectricityBill { room: text, balance });
        assert(s =~= response_bytes(v) + r3);
    }
}

/// Bytes that decode to a response payload start with that payload's layout:
/// the decoder reads back exactly what the encoder writes, and nothing else.
pub proof fn lemma_response_parse_is_layout(s: Seq<u8>)
    requires
        parse_response(s) is Some,
    ensures
        response_bytes(parse_response(s).unwrap()).len() <= s.len(),
        s.take(response_bytes(parse_response(s).unwrap()).len() as int) == response_bytes(
            parse_response(s).unwrap(),
        ),
{
    let e = response_bytes(parse_response(s).unwrap());
    if parse_u32(s).unwrap().0 < 2 {
        lemma_response_record_is_layout(s);
    } else {
        lemma_response_list_is_layout(s);
    }
    let rest = choose|rest: Seq<u8>| s == e + rest;
    assert(s.take(e.len() as int) =~= e);
}

} // verus!
