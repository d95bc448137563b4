//! The question section entry: a queried name, a type and a class.

use vstd::prelude::*;

use crate::buffer::{be16, labels_valid, splice, u16_be, PacketBuffer, BUF_LEN};
use crate::codes::Error;
use crate::name::{lemma_name_wire_len, name_valid, name_wire, scan_name};
use crate::record::RecordType;

verus! {

/// One entry of the question section.
#[derive(Clone, Debug, PartialEq, Eq)]
pub struct Question {
    /// The queried name, lowercase and dot-joined.
    pub name: Vec<u8>,
    /// The queried record type.
    pub question_type: RecordType,
    /// The class, always 1 when constructed locally; other classes are
    /// accepted on decode.
    pub class: u16,
}

/// The spec-level image of a question.
pub struct QuestionV {
    pub name: Seq<u8>,
    pub question_type: RecordType,
    pub class: u16,
}

impl View for Question {
    type V = QuestionV;

    open spec fn view(&self) -> QuestionV {
        QuestionV { name: self.name@, question_type: self.question_type, class: self.class }
    }
}

/// The octets a question encodes to: the name, then type and class.
pub open spec fn question_wire(q: QuestionV) -> Seq<u8> {
    name_wire(q.name) + u16_be(q.question_type.spec_to_num()) + u16_be(q.class)
}

/// What decoding a question starting at `p` yields, and where it leaves
/// the cursor.
pub open spec fn question_at(bytes: Seq<u8>, p: int) -> (Result<QuestionV, Error>, int) {
    let scan = scan_name(bytes, p, 0, false, p);
    let p1 = scan.1;
    match scan.0 {
        Result::Err(e) => (Result::Err(e), p1),
        Result::Ok(nm) => {
            if p1 + 2 > BUF_LEN {
                (Result::Err(Error::PacketBufferOver512), p1)
            } else if p1 + 4 > BUF_LEN {
                (Result::Err(Error::PacketBufferOver512), p1 + 2)
            } else {
                (
                    Result::Ok(
                        QuestionV {
                            name: nm,
                            question_type: RecordType::spec_from_num(
                                be16(bytes[p1], bytes[p1 + 1]),
                            ),
                            class: be16(bytes[p1 + 2], bytes[p1 + 3]),
                        },
                    ),
                    p1 + 4,
                )
            }
        },
    }
}

impl Question {
    /// A question for `name` with the given type, class 1.
    pub fn new(name: Vec<u8>, qtype: RecordType) -> (q: Question)
        ensures
            q@.name == name@,
            q@.question_type == qtype,
            q@.class == 1,
    {
        Question { name, question_type: qtype, class: 1 }
    }

    /// Encodes the question at the cursor.  A name with an overlong label
    /// is refused first, then a question the buffer has no room for;
    /// either way nothing is written.
    pub fn write(&self, buffer: &mut PacketBuffer) -> (r: Result<(), Error>)
        requires
            old(buffer).wf(),
        ensures
            final(buffer).wf(),
            if !name_valid(self@.name) {
                r == Result::<(), Error>::Err(Error::LabelLengthOver63) && final(buffer)@ == old(
                    buffer,
                )@ && final(buffer).spec_pos() == old(buffer).spec_pos()
            } else if old(buffer).spec_pos() + question_wire(self@).len() > BUF_LEN {
                r == Result::<(), Error>::Err(Error::PacketBufferOver512) && final(buffer)@ == old(
                    buffer,
                )@ && final(buffer).spec_pos() == old(buffer).spec_pos()
            } else {
                r is Ok && final(buffer)@ == splice(
                    old(buffer)@,
                    old(buffer).spec_pos(),
                    question_wire(self@),
                ) && final(buffer).spec_pos() == old(buffer).spec_pos() + question_wire(
                    self@,
                ).len()
            },
    {
        if !labels_valid(self.name.as_slice()) {
            return Err(Error::LabelLengthOver63);
        }
        proof {
            lemma_name_wire_len(self.name@);
        }
        if self.name.len() > BUF_LEN || buffer.pos() + self.name.len() + 6 > BUF_LEN {
            return Err(Error::PacketBufferOver512);
        }
        let ghost orig = buffer@;
        let ghost p0 = buffer.spec_pos();
        buffer.write_qname(self.name.as_slice())?;
        buffer.write_u16(self.question_type.to_num())?;
        buffer.write_u16(self.class)?;
        proof {
            crate::buffer::lemma_splice_concat(
                orig,
                p0,
                name_wire(self.name@),
                u16_be(self.question_type.spec_to_num()),
            );
            crate::buffer::lemma_splice_concat(
                orig,
                p0,
                name_wire(self.name@) + u16_be(self.question_type.spec_to_num()),
                u16_be(self.class),
            );
        }
        Ok(())
    }

    /// Decodes one question at the cursor.
    pub fn read(buffer: &mut PacketBuffer) -> (r: Result<Question, Error>)
        requires
            old(buffer).wf(),
        ensures
            final(buffer).wf(),
            final(buffer)@ == old(buffer)@,
            ({
                let (res, endp) = question_at(old(buffer)@, old(buffer).spec_pos());
                final(buffer).spec_pos() == endp && match r {
                    Ok(q) => res == Result::<QuestionV, Error>::Ok(q@),
                    Err(e) => res == Result::<QuestionV, Error>::Err(e),
                }
            }),
    {
        let name = buffer.read_qname()?;
        let tnum = buffer.read_u16()?;
        let class = buffer.read_u16()?;
        Ok(Question { name, question_type: RecordType::from_num(tnum), class })
    }
}

} // verus!
