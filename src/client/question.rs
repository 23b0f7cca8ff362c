//! The question entry: an encoded name, a type and a class.

use crate::client::utility::{
    be16, copy_range, find_null_from, lemma_null_from, lemma_u16_bytes, null_from, push_all, push_u16, read_be_u16, u16_be,
    FormatError,
};
use vstd::prelude::*;

verus! {

/// DNS question section
pub struct Question {
    /// Encoded domain name, terminator included
    pub q_name: Vec<u8>,
    /// Type of query
    pub q_type: u16,
    /// Class of query
    pub q_class: u16,
}

/// A question as plain values.
pub struct QuestionView {
    pub name: Seq<u8>,
    pub qtype: u16,
    pub qclass: u16,
}

impl View for Question {
    type V = QuestionView;

    open spec fn view(&self) -> QuestionView {
        QuestionView { name: self.q_name@, qtype: self.q_type, qclass: self.q_class }
    }
}

/// The wire bytes of a question.
pub open spec fn question_bytes(q: QuestionView) -> Seq<u8> {
    q.name + u16_be(q.qtype) + u16_be(q.qclass)
}

/// The question stored in `s` at `start` and the offset just past it, if well formed:
/// a name up to its zero terminator, then type and class.
pub open spec fn question_at(s: Seq<u8>, start: int) -> Option<(int, QuestionView)> {
    let p = null_from(s, start);
    if start < 0 || p + 5 > s.len() {
        None
    } else {
        Some(
            (
                p + 5,
                QuestionView {
                    name: s.subrange(start, p + 1),
                    qtype: be16(s, p + 1) as u16,
                    qclass: be16(s, p + 3) as u16,
                },
            ),
        )
    }
}

impl Question {
    /// Transform to a vector of bytes
    pub fn to_be_bytes(&self) -> (r: Vec<u8>)
        ensures
            r@ == question_bytes(self@),
    {
        let mut question: Vec<u8> = Vec::new();
        push_all(&mut question, self.q_name.as_slice());
        push_u16(&mut question, self.q_type);
        push_u16(&mut question, self.q_class);
        question
    }

    /// Parse the question that starts at `start`
    pub fn parse(message: &Vec<u8>, start: usize) -> (r: Result<(usize, Question), FormatError>)
        ensures
            match r {
                Ok((next, q)) => question_at(message@, start as int) == Some((next as int, q@)),
                Err(_) => question_at(message@, start as int) is None,
            },
    {
        let m = message.as_slice();
        let null_pos = match find_null_from(m, start) {
            Ok(p) => p,
            Err(e) => return Err(e),
        };
        if m.len() - null_pos < 5 {
            return Err(FormatError);
        }
        proof {
            lemma_null_from(message@, start as int);
        }
        let q_name = copy_range(m, start, null_pos + 1);
        let q_type = read_be_u16(m, null_pos + 1);
        let q_class = read_be_u16(m, null_pos + 3);
        let q = Question { q_name, q_type, q_class };
        assert(q@ == question_at(message@, start as int).unwrap().1);
        Ok((null_pos + 5, q))
    }
}

/// Writing back a question read from `s` gives the bytes it spans.
pub proof fn lemma_question_at_bytes(s: Seq<u8>, start: int)
    requires
        question_at(s, start) is Some,
    ensures
        question_bytes(question_at(s, start).unwrap().1) == s.subrange(
            start,
            question_at(s, start).unwrap().0,
        ),
{
    let p = null_from(s, start);
    lemma_null_from(s, start);
    lemma_u16_bytes(s, p + 1);
    lemma_u16_bytes(s, p + 3);
    assert(question_bytes(question_at(s, start).unwrap().1) =~= s.subrange(start, p + 5));
}

} // verus!
