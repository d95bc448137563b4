//! The message aggregate: a header and the four ordered sections, with
//! parse and serialize and the lookups the resolver needs.

use vstd::prelude::*;

use crate::buffer::{splice, PacketBuffer, BUF_LEN};
use crate::codes::Error;
use crate::header::{header_from_bytes, header_wire, Header};
use crate::name::name_valid;
use crate::question::{question_at, question_wire, Question, QuestionV};
use crate::record::{
    record_at, record_names_valid, record_wire, Ipv4, Record, RecordType, RecordV,
};

verus! {

/// A whole DNS message: the header and the four record sections, in wire
/// order.
#[derive(Clone, Debug, PartialEq, Eq)]
pub struct Packet {
    pub header: Header,
    pub questions: Vec<Question>,
    pub answers: Vec<Record>,
    pub authorities: Vec<Record>,
    pub additionals: Vec<Record>,
}

/// The spec-level image of a packet.
pub struct PacketV {
    pub header: Header,
    pub questions: Seq<QuestionV>,
    pub answers: Seq<RecordV>,
    pub authorities: Seq<RecordV>,
    pub additionals: Seq<RecordV>,
}

/// The images of a question section.
pub open spec fn question_views(v: Seq<Question>) -> Seq<QuestionV> {
    v.map_values(|q: Question| q@)
}

/// The images of a record section.
pub open spec fn record_views(v: Seq<Record>) -> Seq<RecordV> {
    v.map_values(|r: Record| r@)
}

impl View for Packet {
    type V = PacketV;

    open spec fn view(&self) -> PacketV {
        PacketV {
            header: self.header,
            questions: question_views(self.questions@),
            answers: record_views(self.answers@),
            authorities: record_views(self.authorities@),
            additionals: record_views(self.additionals@),
        }
    }
}

/// The octets of a question section, in order.
pub open spec fn questions_wire(qs: Seq<QuestionV>) -> Seq<u8>
    decreases qs.len(),
{
    if qs.len() == 0 {
        Seq::<u8>::empty()
    } else {
        question_wire(qs[0]) + questions_wire(qs.drop_first())
    }
}

/// The octets of a record section, in order.
pub open spec fn records_wire(rs: Seq<RecordV>) -> Seq<u8>
    decreases rs.len(),
{
    if rs.len() == 0 {
        Seq::<u8>::empty()
    } else {
        record_wire(rs[0]) + records_wire(rs.drop_first())
    }
}

/// Encoding a section piecewise is encoding it at once.
pub proof fn lemma_questions_wire_concat(a: Seq<QuestionV>, b: Seq<QuestionV>)
    ensures
        questions_wire(a + b) == questions_wire(a) + questions_wire(b),
    decreases a.len(),
{
    if a.len() == 0 {
        assert(a + b =~= b);
        assert(questions_wire(a) + questions_wire(b) =~= questions_wire(b));
    } else {
        assert((a + b).drop_first() =~= a.drop_first() + b);
        lemma_questions_wire_concat(a.drop_first(), b);
        assert(question_wire(a[0]) + (questions_wire(a.drop_first()) + questions_wire(b))
            =~= question_wire(a[0]) + questions_wire(a.drop_first()) + questions_wire(b));
    }
}

/// Encoding a record section piecewise is encoding it at once.
pub proof fn lemma_records_wire_concat(a: Seq<RecordV>, b: Seq<RecordV>)
    ensures
        records_wire(a + b) == records_wire(a) + records_wire(b),
    decreases a.len(),
{
    if a.len() == 0 {
        assert(a + b =~= b);
        assert(records_wire(a) + records_wire(b) =~= records_wire(b));
    } else {
        assert((a + b).drop_first() =~= a.drop_first() + b);
        lemma_records_wire_concat(a.drop_first(), b);
        assert(record_wire(a[0]) + (records_wire(a.drop_first()) + records_wire(b)) =~= record_wire(
            a[0],
        ) + records_wire(a.drop_first()) + records_wire(b));
    }
}

/// One more question extends the section's octets at the end.
pub proof fn lemma_questions_wire_snoc(qs: Seq<QuestionV>, i: int)
    requires
        0 <= i < qs.len(),
    ensures
        questions_wire(qs.take(i + 1)) == questions_wire(qs.take(i)) + question_wire(qs[i]),
{
    assert(qs.take(i + 1) =~= qs.take(i) + seq![qs[i]]);
    lemma_questions_wire_concat(qs.take(i), seq![qs[i]]);
    assert(questions_wire(seq![qs[i]].drop_first()) == Seq::<u8>::empty());
    assert(questions_wire(seq![qs[i]]) =~= question_wire(qs[i]));
}

/// One more record extends the section's octets at the end.
pub proof fn lemma_records_wire_snoc(rs: Seq<RecordV>, i: int)
    requires
        0 <= i < rs.len(),
    ensures
        records_wire(rs.take(i + 1)) == records_wire(rs.take(i)) + record_wire(rs[i]),
{
    assert(rs.take(i + 1) =~= rs.take(i) + seq![rs[i]]);
    lemma_records_wire_concat(rs.take(i), seq![rs[i]]);
    assert(records_wire(seq![rs[i]].drop_first()) == Seq::<u8>::empty());
    assert(records_wire(seq![rs[i]]) =~= record_wire(rs[i]));
}

/// The octets a packet serializes to: header, questions, answers,
/// authorities, additionals.
pub open spec fn packet_wire(p: PacketV) -> Seq<u8> {
    header_wire(p.header) + questions_wire(p.questions) + records_wire(p.answers) + records_wire(
        p.authorities,
    ) + records_wire(p.additionals)
}

/// Whether every name anywhere in the packet has well-formed labels.
pub open spec fn packet_names_valid(p: PacketV) -> bool {
    &&& forall|i: int| 0 <= i < p.questions.len() ==> name_valid(#[trigger] p.questions[i].name)
    &&& forall|i: int| 0 <= i < p.answers.len() ==> record_names_valid(#[trigger] p.answers[i])
    &&& forall|i: int|
        0 <= i < p.authorities.len() ==> record_names_valid(#[trigger] p.authorities[i])
    &&& forall|i: int|
        0 <= i < p.additionals.len() ==> record_names_valid(#[trigger] p.additionals[i])
}

impl Packet {
    /// An empty packet around the given header.
    pub fn with_header(header: Header) -> (p: Packet)
        ensures
            p@.header == header,
            p@.questions == Seq::<QuestionV>::empty(),
            p@.answers == Seq::<RecordV>::empty(),
            p@.authorities == Seq::<RecordV>::empty(),
            p@.additionals == Seq::<RecordV>::empty(),
    {
        let p = Packet {
            header,
            questions: Vec::new(),
            answers: Vec::new(),
            authorities: Vec::new(),
            additionals: Vec::new(),
        };
        proof {
            assert(p@.questions =~= Seq::<QuestionV>::empty());
            assert(p@.answers =~= Seq::<RecordV>::empty());
            assert(p@.authorities =~= Seq::<RecordV>::empty());
            assert(p@.additionals =~= Seq::<RecordV>::empty());
        }
        p
    }

    /// Appends a question for `name` and counts it in the header.
    pub fn add_question(&mut self, name: Vec<u8>, qtype: RecordType) -> (r: Result<(), Error>)
        requires
            old(self).header.question_count < 0xFFFF,
        ensures
            r is Ok,
            final(self)@.header == (Header {
                question_count: (old(self)@.header.question_count + 1) as u16,
                ..old(self)@.header
            }),
            final(self)@.questions == old(self)@.questions.push(
                QuestionV { name: name@, question_type: qtype, class: 1 },
            ),
            final(self)@.answers == old(self)@.answers,
            final(self)@.authorities == old(self)@.authorities,
            final(self)@.additionals == old(self)@.additionals,
    {
        self.questions.push(Question::new(name, qtype));
        self.header.question_count = self.header.question_count + 1;
        proof {
            assert(self@.questions =~= old(self)@.questions.push(
                QuestionV {
                    name: self.questions@[old(self).questions@.len() as int].name@,
                    question_type: qtype,
                    class: 1,
                },
            ));
        }
        Ok(())
    }

    /// Serializes the packet at the cursor: the header, then each section
    /// in order.  Success is owed exactly when every name is well formed
    /// and the whole wire image fits the buffer; an overlong label is
    /// reported as such, and nothing before the starting cursor is ever
    /// touched.
    pub fn write(&self, buffer: &mut PacketBuffer) -> (r: Result<(), Error>)
        requires
            old(buffer).wf(),
            self.header.wf(),
        ensures
            final(buffer).wf(),
            r is Ok <==> (packet_names_valid(self@) && old(buffer).spec_pos() + packet_wire(
                self@,
            ).len() <= BUF_LEN),
            r is Ok ==> final(buffer)@ == splice(
                old(buffer)@,
                old(buffer).spec_pos(),
                packet_wire(self@),
            ) && final(buffer).spec_pos() == old(buffer).spec_pos() + packet_wire(self@).len(),
            r == Result::<(), Error>::Err(Error::LabelLengthOver63) ==> !packet_names_valid(
                self@,
            ),
            packet_names_valid(self@) && r is Err ==> r == Result::<(), Error>::Err(
                Error::PacketBufferOver512,
            ),
            r is Err ==> final(buffer)@.subrange(0, old(buffer).spec_pos()) == old(
                buffer,
            )@.subrange(0, old(buffer).spec_pos()) && final(buffer).spec_pos() >= old(
                buffer,
            ).spec_pos(),
    {
        let ghost orig = buffer@;
        let ghost p0 = buffer.spec_pos();
        let ghost pv = self@;
        self.header.write(buffer)?;
        let ghost mut ww: Seq<u8> = header_wire(self.header);

        let mut i: usize = 0;
        while i < self.questions.len()
            invariant
                buffer.wf(),
                orig == old(buffer)@,
                p0 == old(buffer).spec_pos(),
                orig.len() == BUF_LEN,
                0 <= p0 <= BUF_LEN,
                pv == self@,
                i <= pv.questions.len(),
                pv.questions.len() == self.questions@.len(),
                ww == header_wire(pv.header) + questions_wire(pv.questions.take(i as int)),
                buffer.spec_pos() == p0 + ww.len(),
                buffer@ == splice(orig, p0, ww),
                forall|j: int| 0 <= j < i ==> name_valid(#[trigger] pv.questions[j].name),
            decreases self.questions@.len() - i,
        {
            let ghost ww_old = ww;
            let q = &self.questions[i];
            match q.write(buffer) {
                Ok(_) => (),
                Err(e) => {
                    proof {
                        lemma_packet_wire_prefix_q(pv, i as int);
                        assert(buffer@.subrange(0, p0) =~= orig.subrange(0, p0));
                    }
                    return Err(e);
                },
            }
            proof {
                crate::buffer::lemma_splice_concat(orig, p0, ww_old, question_wire(q@));
                lemma_questions_wire_snoc(pv.questions, i as int);
                ww = ww_old + question_wire(q@);
            }
            i = i + 1;
        }
        proof {
            assert(pv.questions.take(pv.questions.len() as int) =~= pv.questions);
        }

        let mut i: usize = 0;
        while i < self.answers.len()
            invariant
                buffer.wf(),
                orig == old(buffer)@,
                p0 == old(buffer).spec_pos(),
                orig.len() == BUF_LEN,
                0 <= p0 <= BUF_LEN,
                pv == self@,
                i <= pv.answers.len(),
                pv.answers.len() == self.answers@.len(),
                forall|j: int| 0 <= j < pv.questions.len() ==> name_valid(
                    #[trigger] pv.questions[j].name,
                ),
                ww == header_wire(pv.header) + questions_wire(pv.questions) + records_wire(
                    pv.answers.take(i as int),
                ),
                buffer.spec_pos() == p0 + ww.len(),
                buffer@ == splice(orig, p0, ww),
                forall|j: int| 0 <= j < i ==> record_names_valid(#[trigger] pv.answers[j]),
            decreases self.answers@.len() - i,
        {
            let ghost ww_old = ww;
            let rec = &self.answers[i];
            match rec.write(buffer) {
                Ok(_) => (),
                Err(e) => {
                    proof {
                        lemma_packet_wire_prefix_an(pv, i as int);
                        assert(buffer@.subrange(0, p0) =~= orig.subrange(0, p0));
                    }
                    return Err(e);
                },
            }
            proof {
                crate::buffer::lemma_splice_concat(orig, p0, ww_old, record_wire(rec@));
                lemma_records_wire_snoc(pv.answers, i as int);
                ww = ww_old + record_wire(rec@);
            }
            i = i + 1;
        }
        proof {
            assert(pv.answers.take(pv.answers.len() as int) =~= pv.answers);
        }

        let mut i: usize = 0;
        while i < self.authorities.len()
            invariant
                buffer.wf(),
                orig == old(buffer)@,
                p0 == old(buffer).spec_pos(),
                orig.len() == BUF_LEN,
                0 <= p0 <= BUF_LEN,
                pv == self@,
                i <= pv.authorities.len(),
                pv.authorities.len() == self.authorities@.len(),
                forall|j: int| 0 <= j < pv.questions.len() ==> name_valid(
                    #[trigger] pv.questions[j].name,
                ),
                forall|j: int| 0 <= j < pv.answers.len() ==> record_names_valid(
                    #[trigger] pv.answers[j],
                ),
                ww == header_wire(pv.header) + questions_wire(pv.questions) + records_wire(
                    pv.answers,
                ) + records_wire(pv.authorities.take(i as int)),
                buffer.spec_pos() == p0 + ww.len(),
                buffer@ == splice(orig, p0, ww),
                forall|j: int| 0 <= j < i ==> record_names_valid(#[trigger] pv.authorities[j]),
            decreases self.authorities@.len() - i,
        {
            let ghost ww_old = ww;
            let rec = &self.authorities[i];
            match rec.write(buffer) {
                Ok(_) => (),
                Err(e) => {
                    proof {
                        lemma_packet_wire_prefix_ns(pv, i as int);
                        assert(buffer@.subrange(0, p0) =~= orig.subrange(0, p0));
                    }
                    return Err(e);
                },
            }
            proof {
                crate::buffer::lemma_splice_concat(orig, p0, ww_old, record_wire(rec@));
                lemma_records_wire_snoc(pv.authorities, i as int);
                ww = ww_old + record_wire(rec@);
            }
            i = i + 1;
        }
        proof {
            assert(pv.authorities.take(pv.authorities.len() as int) =~= pv.authorities);
        }

        let mut i: usize = 0;
        while i < self.additionals.len()
            invariant
                buffer.wf(),
                orig == old(buffer)@,
                p0 == old(buffer).spec_pos(),
                orig.len() == BUF_LEN,
                0 <= p0 <= BUF_LEN,
                pv == self@,
                i <= pv.additionals.len(),
                pv.additionals.len() == self.additionals@.len(),
                forall|j: int| 0 <= j < pv.questions.len() ==> name_valid(
                    #[trigger] pv.questions[j].name,
                ),
                forall|j: int| 0 <= j < pv.answers.len() ==> record_names_valid(
                    #[trigger] pv.answers[j],
                ),
                forall|j: int| 0 <= j < pv.authorities.len() ==> record_names_valid(
                    #[trigger] pv.authorities[j],
                ),
                ww == header_wire(pv.header) + questions_wire(pv.questions) + records_wire(
                    pv.answers,
                ) + records_wire(pv.authorities) + records_wire(pv.additionals.take(i as int)),
                buffer.spec_pos() == p0 + ww.len(),
                buffer@ == splice(orig, p0, ww),
                forall|j: int| 0 <= j < i ==> record_names_valid(#[trigger] pv.additionals[j]),
            decreases self.additionals@.len() - i,
        {
            let ghost ww_old = ww;
            let rec = &self.additionals[i];
            match rec.write(buffer) {
                Ok(_) => (),
                Err(e) => {
                    proof {
                        lemma_packet_wire_prefix_ar(pv, i as int);
                        assert(buffer@.subrange(0, p0) =~= orig.subrange(0, p0));
                    }
                    return Err(e);
                },
            }
            proof {
                crate::buffer::lemma_splice_concat(orig, p0, ww_old, record_wire(rec@));
                lemma_records_wire_snoc(pv.additionals, i as int);
                ww = ww_old + record_wire(rec@);
            }
            i = i + 1;
        }
        proof {
            assert(pv.additionals.take(pv.additionals.len() as int) =~= pv.additionals);
            assert(ww =~= packet_wire(pv));
        }
        Ok(())
    }
}

/// What decoding `n` questions one after the other, starting at `p`,
/// yields, and where it leaves the cursor.
pub open spec fn questions_at(bytes: Seq<u8>, p: int, n: nat) -> (Result<Seq<QuestionV>, Error>, int)
    decreases n,
{
    if n == 0 {
        (Result::Ok(Seq::<QuestionV>::empty()), p)
    } else {
        let first = question_at(bytes, p);
        match first.0 {
            Result::Err(e) => (Result::Err(e), first.1),
            Result::Ok(qv) => {
                let rest = questions_at(bytes, first.1, (n - 1) as nat);
                match rest.0 {
                    Result::Err(e) => (Result::Err(e), rest.1),
                    Result::Ok(s) => (Result::Ok(seq![qv] + s), rest.1),
                }
            },
        }
    }
}

/// What decoding `n` records one after the other, starting at `p`,
/// yields, and where it leaves the cursor.
pub open spec fn records_at(bytes: Seq<u8>, p: int, n: nat) -> (Result<Seq<RecordV>, Error>, int)
    decreases n,
{
    if n == 0 {
        (Result::Ok(Seq::<RecordV>::empty()), p)
    } else {
        let first = record_at(bytes, p);
        match first.0 {
            Result::Err(e) => (Result::Err(e), first.1),
            Result::Ok(rv) => {
                let rest = records_at(bytes, first.1, (n - 1) as nat);
                match rest.0 {
                    Result::Err(e) => (Result::Err(e), rest.1),
                    Result::Ok(s) => (Result::Ok(seq![rv] + s), rest.1),
                }
            },
        }
    }
}

/// What decoding a whole message from the start of the buffer yields:
/// the header, then as many questions and records as its counts announce.
pub open spec fn packet_at(bytes: Seq<u8>) -> Result<PacketV, Error> {
    let h = header_from_bytes(bytes);
    let qs = questions_at(bytes, 12, h.question_count as nat);
    match qs.0 {
        Result::Err(e) => Result::Err(e),
        Result::Ok(questions) => {
            let ans = records_at(bytes, qs.1, h.answer_count as nat);
            match ans.0 {
                Result::Err(e) => Result::Err(e),
                Result::Ok(answers) => {
                    let auth = records_at(bytes, ans.1, h.authority_count as nat);
                    match auth.0 {
                        Result::Err(e) => Result::Err(e),
                        Result::Ok(authorities) => {
                            let add = records_at(bytes, auth.1, h.additional_count as nat);
                            match add.0 {
                                Result::Err(e) => Result::Err(e),
                                Result::Ok(additionals) => Result::Ok(
                                    PacketV {
                                        header: h,
                                        questions,
                                        answers,
                                        authorities,
                                        additionals,
                                    },
                                ),
                            }
                        },
                    }
                },
            }
        },
    }
}

/// Reads `n` questions one after the other.
fn read_questions(buffer: &mut PacketBuffer, n: u16) -> (r: Result<Vec<Question>, Error>)
    requires
        old(buffer).wf(),
    ensures
        final(buffer).wf(),
        final(buffer)@ == old(buffer)@,
        ({
            let (res, endp) = questions_at(old(buffer)@, old(buffer).spec_pos(), n as nat);
            final(buffer).spec_pos() == endp && match r {
                Ok(v) => res == Result::<Seq<QuestionV>, Error>::Ok(question_views(v@)),
                Err(e) => res == Result::<Seq<QuestionV>, Error>::Err(e),
            }
        }),
{
    let ghost bs = buffer@;
    let ghost start = buffer.spec_pos();
    let mut out: Vec<Question> = Vec::new();
    let mut i: u16 = 0;
    proof {
        assert(question_views(out@) =~= Seq::<QuestionV>::empty());
    }
    while i < n
        invariant
            buffer.wf(),
            bs == old(buffer)@,
            start == old(buffer).spec_pos(),
            buffer@ == bs,
            i <= n,
            ({
                let full = questions_at(bs, start, n as nat);
                let now = questions_at(bs, buffer.spec_pos(), (n - i) as nat);
                full.1 == now.1 && full.0 == match now.0 {
                    Result::<Seq<QuestionV>, Error>::Ok(rest) => Result::<
                        Seq<QuestionV>,
                        Error,
                    >::Ok(question_views(out@) + rest),
                    Result::<Seq<QuestionV>, Error>::Err(e) => Result::<
                        Seq<QuestionV>,
                        Error,
                    >::Err(e),
                }
            }),
        decreases n - i,
    {
        let ghost out_entry = out@;
        let q = Question::read(buffer)?;
        out.push(q);
        i = i + 1;
        proof {
            let qv = out@[out_entry.len() as int]@;
            assert(question_views(out@) =~= question_views(out_entry) + seq![qv]);
            let now = questions_at(bs, buffer.spec_pos(), (n - i) as nat);
            if now.0 is Ok {
                let rest = now.0->Ok_0;
                assert((question_views(out_entry) + seq![qv]) + rest =~= question_views(
                    out_entry,
                ) + (seq![qv] + rest));
            }
        }
    }
    proof {
        assert(question_views(out@) + Seq::<QuestionV>::empty() =~= question_views(out@));
    }
    Ok(out)
}

/// Reads `n` records one after the other.
fn read_records(buffer: &mut PacketBuffer, n: u16) -> (r: Result<Vec<Record>, Error>)
    requires
        old(buffer).wf(),
    ensures
        final(buffer).wf(),
        final(buffer)@ == old(buffer)@,
        ({
            let (res, endp) = records_at(old(buffer)@, old(buffer).spec_pos(), n as nat);
            final(buffer).spec_pos() == endp && match r {
                Ok(v) => res == Result::<Seq<RecordV>, Error>::Ok(record_views(v@)),
                Err(e) => res == Result::<Seq<RecordV>, Error>::Err(e),
            }
        }),
{
    let ghost bs = buffer@;
    let ghost start = buffer.spec_pos();
    let mut out: Vec<Record> = Vec::new();
    let mut i: u16 = 0;
    proof {
        assert(record_views(out@) =~= Seq::<RecordV>::empty());
    }
    while i < n
        invariant
            buffer.wf(),
            bs == old(buffer)@,
            start == old(buffer).spec_pos(),
            buffer@ == bs,
            i <= n,
            ({
                let full = records_at(bs, start, n as nat);
                let now = records_at(bs, buffer.spec_pos(), (n - i) as nat);
                full.1 == now.1 && full.0 == match now.0 {
                    Result::<Seq<RecordV>, Error>::Ok(rest) => Result::<Seq<RecordV>, Error>::Ok(
                        record_views(out@) + rest,
                    ),
                    Result::<Seq<RecordV>, Error>::Err(e) => Result::<Seq<RecordV>, Error>::Err(
                        e,
                    ),
                }
            }),
        decreases n - i,
    {
        let ghost out_entry = out@;
        let rec = Record::read(buffer)?;
        out.push(rec);
        i = i + 1;
        proof {
            let rv = out@[out_entry.len() as int]@;
            assert(record_views(out@) =~= record_views(out_entry) + seq![rv]);
            let now = records_at(bs, buffer.spec_pos(), (n - i) as nat);
            if now.0 is Ok {
                let rest = now.0->Ok_0;
                assert((record_views(out_entry) + seq![rv]) + rest =~= record_views(out_entry) + (
                seq![rv] + rest));
            }
        }
    }
    proof {
        assert(record_views(out@) + Seq::<RecordV>::empty() =~= record_views(out@));
    }
    Ok(out)
}

impl Packet {
    /// Parses a whole message from a buffer whose cursor stands at the
    /// start: the header, then each section as its count announces.
    pub fn read(buffer: PacketBuffer) -> (r: Result<Packet, Error>)
        requires
            buffer.wf(),
        ensures
            if buffer.spec_pos() != 0 {
                r == Result::<Packet, Error>::Err(Error::PacketBufferInvalidPosition)
            } else {
                match r {
                    Ok(p) => packet_at(buffer@) == Result::<PacketV, Error>::Ok(p@),
                    Err(e) => packet_at(buffer@) == Result::<PacketV, Error>::Err(e),
                }
            },
    {
        let mut buffer = buffer;
        let header = Header::read(&mut buffer)?;
        let questions = read_questions(&mut buffer, header.question_count)?;
        let answers = read_records(&mut buffer, header.answer_count)?;
        let authorities = read_records(&mut buffer, header.authority_count)?;
        let additionals = read_records(&mut buffer, header.additional_count)?;
        Ok(Packet { header, questions, answers, authorities, additionals })
    }
}

/// Whether `suffix` is an octet suffix of `of`; how the resolver matches a
/// delegated zone against the queried name.
pub open spec fn is_suffix(of: Seq<u8>, suffix: Seq<u8>) -> bool {
    suffix.len() <= of.len() && of.skip(of.len() - suffix.len()) == suffix
}

/// The address of the first A record of a section, if any.
pub open spec fn first_a(rs: Seq<RecordV>) -> Option<Seq<u8>>
    decreases rs.len(),
{
    if rs.len() == 0 {
        Option::None
    } else {
        match rs[0] {
            RecordV::A { addr, .. } => Option::Some(addr),
            _ => first_a(rs.drop_first()),
        }
    }
}

/// The address of the first A record owned by `host`, if any: the glue
/// that resolves a nameserver named in the authority section.
pub open spec fn first_glue(adds: Seq<RecordV>, host: Seq<u8>) -> Option<Seq<u8>>
    decreases adds.len(),
{
    if adds.len() == 0 {
        Option::None
    } else {
        match adds[0] {
            RecordV::A { preamble, addr } => {
                if preamble.name == host {
                    Option::Some(addr)
                } else {
                    first_glue(adds.drop_first(), host)
                }
            },
            _ => first_glue(adds.drop_first(), host),
        }
    }
}

/// The first glue address among the NS records whose zone is a suffix of
/// `qname`: authorities in order, and for each its first glue.
pub open spec fn first_resolved_ns(auths: Seq<RecordV>, adds: Seq<RecordV>, qname: Seq<u8>) -> Option<
    Seq<u8>,
>
    decreases auths.len(),
{
    if auths.len() == 0 {
        Option::None
    } else {
        match auths[0] {
            RecordV::NS { preamble, host } => {
                if is_suffix(qname, preamble.name) {
                    match first_glue(adds, host) {
                        Option::Some(ip) => Option::Some(ip),
                        Option::None => first_resolved_ns(auths.drop_first(), adds, qname),
                    }
                } else {
                    first_resolved_ns(auths.drop_first(), adds, qname)
                }
            },
            _ => first_resolved_ns(auths.drop_first(), adds, qname),
        }
    }
}

/// The host of the first NS record whose zone is a suffix of `qname`.
pub open spec fn first_matching_ns(auths: Seq<RecordV>, qname: Seq<u8>) -> Option<Seq<u8>>
    decreases auths.len(),
{
    if auths.len() == 0 {
        Option::None
    } else {
        match auths[0] {
            RecordV::NS { preamble, host } => {
                if is_suffix(qname, preamble.name) {
                    Option::Some(host)
                } else {
                    first_matching_ns(auths.drop_first(), qname)
                }
            },
            _ => first_matching_ns(auths.drop_first(), qname),
        }
    }
}

/// Whether two octet runs hold the same octets.
fn bytes_eq(a: &[u8], b: &[u8]) -> (r: bool)
    ensures
        r == (a@ == b@),
{
    if a.len() != b.len() {
        return false;
    }
    let mut i: usize = 0;
    while i < a.len()
        invariant
            a@.len() == b@.len(),
            i <= a@.len(),
            forall|j: int| 0 <= j < i ==> a@[j] == b@[j],
        decreases a@.len() - i,
    {
        if a[i] != b[i] {
            return false;
        }
        i = i + 1;
    }
    proof {
        assert(a@ =~= b@);
    }
    true
}

/// Whether `suffix` closes `of`.
fn suffix_matches(of: &[u8], suffix: &[u8]) -> (r: bool)
    ensures
        r == is_suffix(of@, suffix@),
{
    if suffix.len() > of.len() {
        return false;
    }
    let off = of.len() - suffix.len();
    let mut i: usize = 0;
    while i < suffix.len()
        invariant
            of@.len() <= usize::MAX,
            suffix@.len() <= of@.len(),
            off == of@.len() - suffix@.len(),
            i <= suffix@.len(),
            forall|j: int| 0 <= j < i ==> of@[off + j] == suffix@[j],
        decreases suffix@.len() - i,
    {
        proof {
            assert(off + i < of@.len());
        }
        if of[off + i] != suffix[i] {
            proof {
                assert(of@.skip(off as int)[i as int] == of@[off + i]);
            }
            return false;
        }
        i = i + 1;
    }
    proof {
        assert(of@.skip(off as int) =~= suffix@);
    }
    true
}

/// The first glue A record owned by `host` among `adds`.
fn glue_for(adds: &Vec<Record>, host: &[u8]) -> (r: Option<Ipv4>)
    ensures
        match r {
            Some(ip) => first_glue(record_views(adds@), host@) == Option::Some(ip.octets@),
            None => first_glue(record_views(adds@), host@) is None,
        },
{
    let ghost views = record_views(adds@);
    proof {
        assert(views.skip(0) =~= views);
    }
    let mut i: usize = 0;
    while i < adds.len()
        invariant
            views == record_views(adds@),
            views.len() == adds@.len(),
            i <= adds@.len(),
            first_glue(views, host@) == first_glue(views.skip(i as int), host@),
        decreases adds@.len() - i,
    {
        proof {
            assert(views.skip(i as int)[0] == views[i as int]);
            assert(views.skip(i as int).drop_first() =~= views.skip(i + 1));
        }
        match &adds[i] {
            Record::A { preamble, addr } => {
                if bytes_eq(preamble.name.as_slice(), host) {
                    return Some(*addr);
                }
            },
            _ => (),
        }
        i = i + 1;
    }
    proof {
        assert(views.skip(views.len() as int) =~= Seq::<RecordV>::empty());
    }
    None
}

impl Packet {
    /// The IPv4 address of the first A record among the answers, if any.
    pub fn get_random_a(&self) -> (r: Option<Ipv4>)
        ensures
            match r {
                Some(ip) => first_a(self@.answers) == Option::Some(ip.octets@),
                None => first_a(self@.answers) is None,
            },
    {
        let ghost views = self@.answers;
        proof {
            assert(views.skip(0) =~= views);
        }
        let mut i: usize = 0;
        while i < self.answers.len()
            invariant
                views == self@.answers,
                views.len() == self.answers@.len(),
                i <= self.answers@.len(),
                first_a(views) == first_a(views.skip(i as int)),
            decreases self.answers@.len() - i,
        {
            proof {
                assert(views.skip(i as int)[0] == views[i as int]);
                assert(views.skip(i as int).drop_first() =~= views.skip(i + 1));
            }
            match &self.answers[i] {
                Record::A { addr, .. } => {
                    return Some(*addr);
                },
                _ => (),
            }
            i = i + 1;
        }
        proof {
            assert(views.skip(views.len() as int) =~= Seq::<RecordV>::empty());
        }
        None
    }

    /// The first glue address for `qname`: an A record in the additional
    /// section owned by an NS host whose zone closes `qname`, taking the
    /// authorities in order and for each its first glue.
    pub fn get_resolved_ns(&self, qname: &[u8]) -> (r: Option<Ipv4>)
        ensures
            match r {
                Some(ip) => first_resolved_ns(self@.authorities, self@.additionals, qname@)
                    == Option::Some(ip.octets@),
                None => first_resolved_ns(self@.authorities, self@.additionals, qname@) is None,
            },
    {
        let ghost auths = self@.authorities;
        let ghost adds = self@.additionals;
        proof {
            assert(auths.skip(0) =~= auths);
        }
        let mut i: usize = 0;
        while i < self.authorities.len()
            invariant
                auths == self@.authorities,
                adds == self@.additionals,
                auths.len() == self.authorities@.len(),
                i <= self.authorities@.len(),
                first_resolved_ns(auths, adds, qname@) == first_resolved_ns(
                    auths.skip(i as int),
                    adds,
                    qname@,
                ),
            decreases self.authorities@.len() - i,
        {
            proof {
                assert(auths.skip(i as int)[0] == auths[i as int]);
                assert(auths.skip(i as int).drop_first() =~= auths.skip(i + 1));
            }
            match &self.authorities[i] {
                Record::NS { preamble, host } => {
                    if suffix_matches(qname, preamble.name.as_slice()) {
                        match glue_for(&self.additionals, host.as_slice()) {
                            Some(ip) => {
                                return Some(ip);
                            },
                            None => (),
                        }
                    }
                },
                _ => (),
            }
            i = i + 1;
        }
        proof {
            assert(auths.skip(auths.len() as int) =~= Seq::<RecordV>::empty());
        }
        None
    }

    /// The host name of the first NS record whose zone closes `qname`,
    /// whether or not any glue resolves it.
    pub fn get_unresolved_ns(&self, qname: &[u8]) -> (r: Option<Vec<u8>>)
        ensures
            match r {
                Some(h) => first_matching_ns(self@.authorities, qname@) == Option::Some(h@),
                None => first_matching_ns(self@.authorities, qname@) is None,
            },
    {
        let ghost auths = self@.authorities;
        proof {
            assert(auths.skip(0) =~= auths);
        }
        let mut i: usize = 0;
        while i < self.authorities.len()
            invariant
                auths == self@.authorities,
                auths.len() == self.authorities@.len(),
                i <= self.authorities@.len(),
                first_matching_ns(auths, qname@) == first_matching_ns(auths.skip(i as int), qname@),
            decreases self.authorities@.len() - i,
        {
            proof {
                assert(auths.skip(i as int)[0] == auths[i as int]);
                assert(auths.skip(i as int).drop_first() =~= auths.skip(i + 1));
            }
            match &self.authorities[i] {
                Record::NS { preamble, host } => {
                    if suffix_matches(qname, preamble.name.as_slice()) {
                        return Some(vstd::slice::slice_to_vec(host.as_slice()));
                    }
                },
                _ => (),
            }
            i = i + 1;
        }
        proof {
            assert(auths.skip(auths.len() as int) =~= Seq::<RecordV>::empty());
        }
        None
    }
}

/// The full wire image is at least the part before question `i` plus that
/// question's own octets.
proof fn lemma_packet_wire_prefix_q(pv: PacketV, i: int)
    requires
        0 <= i < pv.questions.len(),
    ensures
        packet_wire(pv).len() >= header_wire(pv.header).len() + questions_wire(
            pv.questions.take(i),
        ).len() + question_wire(pv.questions[i]).len(),
{
    assert(pv.questions =~= pv.questions.take(i) + seq![pv.questions[i]]
        + pv.questions.skip(i + 1));
    lemma_questions_wire_concat(
        pv.questions.take(i) + seq![pv.questions[i]],
        pv.questions.skip(i + 1),
    );
    lemma_questions_wire_concat(pv.questions.take(i), seq![pv.questions[i]]);
    assert(questions_wire(seq![pv.questions[i]].drop_first()) == Seq::<u8>::empty());
    assert(questions_wire(seq![pv.questions[i]]) =~= question_wire(pv.questions[i]));
}

/// The full wire image is at least the part before answer `i` plus that
/// record's own octets.
proof fn lemma_packet_wire_prefix_an(pv: PacketV, i: int)
    requires
        0 <= i < pv.answers.len(),
    ensures
        packet_wire(pv).len() >= header_wire(pv.header).len() + questions_wire(
            pv.questions,
        ).len() + records_wire(pv.answers.take(i)).len() + record_wire(pv.answers[i]).len(),
{
    assert(pv.answers =~= pv.answers.take(i) + seq![pv.answers[i]] + pv.answers.skip(i + 1));
    lemma_records_wire_concat(pv.answers.take(i) + seq![pv.answers[i]], pv.answers.skip(i + 1));
    lemma_records_wire_concat(pv.answers.take(i), seq![pv.answers[i]]);
    assert(records_wire(seq![pv.answers[i]].drop_first()) == Seq::<u8>::empty());
    assert(records_wire(seq![pv.answers[i]]) =~= record_wire(pv.answers[i]));
}

/// The full wire image is at least the part before authority `i` plus
/// that record's own octets.
proof fn lemma_packet_wire_prefix_ns(pv: PacketV, i: int)
    requires
        0 <= i < pv.authorities.len(),
    ensures
        packet_wire(pv).len() >= header_wire(pv.header).len() + questions_wire(
            pv.questions,
        ).len() + records_wire(pv.answers).len() + records_wire(pv.authorities.take(i)).len()
            + record_wire(pv.authorities[i]).len(),
{
    assert(pv.authorities =~= pv.authorities.take(i) + seq![pv.authorities[i]]
        + pv.authorities.skip(i + 1));
    lemma_records_wire_concat(
        pv.authorities.take(i) + seq![pv.authorities[i]],
        pv.authorities.skip(i + 1),
    );
    lemma_records_wire_concat(pv.authorities.take(i), seq![pv.authorities[i]]);
    assert(records_wire(seq![pv.authorities[i]].drop_first()) == Seq::<u8>::empty());
    assert(records_wire(seq![pv.authorities[i]]) =~= record_wire(pv.authorities[i]));
}

/// The full wire image is at least the part before additional `i` plus
/// that record's own octets.
proof fn lemma_packet_wire_prefix_ar(pv: PacketV, i: int)
    requires
        0 <= i < pv.additionals.len(),
    ensures
        packet_wire(pv).len() >= header_wire(pv.header).len() + questions_wire(
            pv.questions,
        ).len() + records_wire(pv.answers).len() + records_wire(pv.authorities).len()
            + records_wire(pv.additionals.take(i)).len() + record_wire(pv.additionals[i]).len(),
{
    assert(pv.additionals =~= pv.additionals.take(i) + seq![pv.additionals[i]]
        + pv.additionals.skip(i + 1));
    lemma_records_wire_concat(
        pv.additionals.take(i) + seq![pv.additionals[i]],
        pv.additionals.skip(i + 1),
    );
    lemma_records_wire_concat(pv.additionals.take(i), seq![pv.additionals[i]]);
    assert(records_wire(seq![pv.additionals[i]].drop_first()) == Seq::<u8>::empty());
    assert(records_wire(seq![pv.additionals[i]]) =~= record_wire(pv.additionals[i]));
}

} // verus!
