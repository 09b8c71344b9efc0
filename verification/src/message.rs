//! DNS messages: what the engine reads of a query and what it writes into an
//! answer. The wire format itself is the work of `dns_message_parser`.
//!
//! That crate's decoder writes to standard output when it meets an option of
//! one kind, the one that carries extended errors. A write can fail and take
//! the caller down with it, and no query has a use for that option, so a
//! datagram that may hold one is never handed to the decoder: it counts as
//! holding no query.

use vstd::prelude::*;
use vstd::slice::slice_subrange;
use vstd::utf8::encode_utf8;
use bytes::Bytes;
use crate::address::{find_stop, first_stop, lemma_first_stop_is, DOT};
use dns_message_parser::question::Question;
use dns_message_parser::rr::{A, RR};
use dns_message_parser::{Dns, Flags, Opcode, RCode};

verus! {

/// One entry of a query's question section. The engine hands it on unread.
#[verifier::external_type_specification]
#[verifier::external_body]
pub struct ExQuestion(Question);

/// One resource record. The engine makes address records and reads none.
#[verifier::external_type_specification]
#[verifier::external_body]
pub struct ExRecord(RR);

/// The operation code of a standard query.
pub const OPCODE_QUERY: u8 = 0;

/// The response code that reports no error.
pub const RCODE_NO_ERROR: u8 = 0;

/// The time for which an answer may be kept: none, so that every query is
/// decided anew.
pub const ANSWER_TTL: u32 = 0;

/// The length of a message's header. No record begins before it has ended.
pub const HEADER_LENGTH: usize = 12;

/// The low byte of the record type that carries options; its high byte is 0.
pub const OPTIONS_TYPE: u8 = 41;

/// The low byte of the code of the option that carries extended errors; its
/// high byte is 0.
pub const ERROR_OPTION: u8 = 15;

/// A decoded query: the parts that an answer echoes.
pub struct Query {
    /// The identifier by which the client matches the answer to its query.
    pub id: u16,
    /// Whether the client asked for recursion.
    pub recursion_desired: bool,
    /// The question section.
    pub questions: Vec<Question>,
}

/// A query as contracts speak of it: its identifier, whether recursion is
/// desired, and its questions.
pub type QueryView = (u16, bool, Seq<Question>);

impl View for Query {
    type V = QueryView;

    open spec fn view(&self) -> QueryView {
        (self.id, self.recursion_desired, self.questions@)
    }
}

/// A query that may be missing, as contracts speak of it.
pub open spec fn view_of(query: Option<Query>) -> Option<QueryView> {
    match query {
        Some(found) => Some(found@),
        None => None,
    }
}

/// The flags and codes in the header of a message.
#[derive(Clone, Copy, Debug, PartialEq, Eq, Structural)]
pub struct Header {
    pub response: bool,
    pub opcode: u8,
    pub authoritative: bool,
    pub truncated: bool,
    pub recursion_desired: bool,
    pub recursion_available: bool,
    pub authentic_data: bool,
    pub checking_disabled: bool,
    pub rcode: u8,
}

/// The header of every answer: a response to a standard query that reports no
/// error, not authoritative, not truncated, recursion not on offer, and the
/// client's wish for recursion handed back.
pub open spec fn answer_header_of(recursion_desired: bool) -> Header {
    Header {
        response: true,
        opcode: OPCODE_QUERY,
        authoritative: false,
        truncated: false,
        recursion_desired,
        recursion_available: false,
        authentic_data: false,
        checking_disabled: false,
        rcode: RCODE_NO_ERROR,
    }
}

/// The bytes of an encoded message, if there are any.
pub open spec fn bytes_of(message: Option<Vec<u8>>) -> Option<Seq<u8>> {
    match message {
        Some(bytes) => Some(bytes@),
        None => None,
    }
}

/// The number that two bytes write, the first counting most.
pub open spec fn pair(high: u8, low: u8) -> int {
    high as int * 256 + low as int
}

/// Whether a run of options holds one that carries extended errors. Each
/// option is two bytes of code, two bytes of length, and as many bytes of
/// data as the length says; what is left over at the end is no option.
pub open spec fn holds_error_option(options: Seq<u8>) -> bool
    decreases options.len(),
{
    if options.len() < 4 {
        false
    } else if options[0] == 0 && options[1] == ERROR_OPTION {
        true
    } else if 4 + pair(options[2], options[3]) > options.len() {
        false
    } else {
        holds_error_option(options.skip(4 + pair(options[2], options[3])))
    }
}

/// Whether the two bytes at `at` may be the type of a record that carries
/// options, one of them for extended errors. After the type stand eight bytes
/// of which the last two give the length of the options.
pub open spec fn error_option_behind(datagram: Seq<u8>, at: int) -> bool {
    &&& HEADER_LENGTH <= at
    &&& at + 10 <= datagram.len()
    &&& datagram[at] == 0
    &&& datagram[at + 1] == OPTIONS_TYPE
    &&& at + 10 + pair(datagram[at + 8], datagram[at + 9]) <= datagram.len()
    &&& holds_error_option(
        datagram.subrange(at + 10, at + 10 + pair(datagram[at + 8], datagram[at + 9])),
    )
}

/// Whether the decoder stays silent on this datagram: nowhere in it may a
/// record begin that carries an option for extended errors.
pub open spec fn is_quiet(datagram: Seq<u8>) -> bool {
    forall|at: int| !#[trigger] error_option_behind(datagram, at)
}

/// What `Dns::decode` makes of a datagram, reduced to the identifier, the
/// recursion flag and the questions: `None` where it reports an error.
pub uninterp spec fn decoded_query(datagram: Seq<u8>) -> Option<(u16, bool, Seq<Question>)>;

/// The query that a datagram holds: what the decoder makes of it where the
/// decoder stays silent, and none where it may not.
pub open spec fn query_in(datagram: Seq<u8>) -> Option<QueryView> {
    if is_quiet(datagram) {
        decoded_query(datagram)
    } else {
        None
    }
}

/// Whether each part of `text` between two `.`, and before the first and after
/// the last, has from 1 to 63 bytes.
pub open spec fn labels_fit(text: Seq<u8>) -> bool
    decreases text.len(),
{
    let end = first_stop(text, DOT);
    1 <= end <= 63 && (end >= text.len() || labels_fit(text.skip(end + 1)))
}

/// Whether these bytes write a domain name: once one `.` at the end is cut
/// off, no more than 254 bytes are left, in parts of 1 to 63 bytes with a `.`
/// between each two.
pub open spec fn is_domain_name(name: Seq<u8>) -> bool {
    let text = if name.len() > 0 && name.last() == DOT {
        name.drop_last()
    } else {
        name
    };
    text.len() <= 254 && labels_fit(text)
}

/// Whether this text, in UTF-8, writes a domain name.
pub open spec fn names_a_domain(name: Seq<char>) -> bool {
    is_domain_name(encode_utf8(name))
}

/// Where the bytes from `from` up to `end` hold no `.`, and nothing follows
/// them or a `.` with fitting labels behind it, the labels from `from` on fit.
pub proof fn lemma_label_fits(bytes: Seq<u8>, from: int, end: int)
    requires
        0 <= from < end <= bytes.len(),
        end - from <= 63,
        forall|j: int| from <= j < end ==> bytes[j] != DOT,
        end < bytes.len() ==> bytes[end] == DOT && labels_fit(bytes.skip(end + 1)),
    ensures
        labels_fit(bytes.skip(from)),
{
    let text = bytes.skip(from);
    assert forall|j: int| 0 <= j < end - from implies text[j] != DOT by {
        assert(text[j] == bytes[from + j]);
    }
    if end < bytes.len() {
        assert(text[end - from] == bytes[end]);
        assert(text.skip(end - from + 1) =~= bytes.skip(end + 1));
    }
    lemma_first_stop_is(text, DOT, end - from);
}

/// The address record that gives `address` for `name`, as
/// `dns_message_parser` holds it: `None` where `DomainName::from_str` refuses
/// the name.
pub uninterp spec fn address_record_of(name: Seq<char>, ttl: u32, address: u32) -> Option<RR>;

/// What `Dns::encode` makes of the message with this identifier and header
/// and these four sections: `None` where the crate refuses a code or the
/// message.
pub uninterp spec fn encoded_message(
    id: u16,
    header: Header,
    questions: Seq<Question>,
    answers: Seq<RR>,
    authorities: Seq<RR>,
    additionals: Seq<RR>,
) -> Option<Seq<u8>>;

/// Whether a record is an address record.
pub open spec fn is_address_record(record: RR) -> bool {
    exists|name: Seq<char>, ttl: u32, address: u32| #[trigger]
        address_record_of(name, ttl, address) == Some(record)
}

/// Whether a section holds address records only.
pub open spec fn only_address_records(section: Seq<RR>) -> bool {
    forall|i: int| 0 <= i < section.len() ==> is_address_record(#[trigger] section[i])
}

/// The answer to `query` that gives `address` for `name`: the query's
/// identifier and questions, the header of an answer, one address record that
/// may be kept for no time, and nothing in the two sections after it.
pub open spec fn answer_to(query: QueryView, name: Seq<char>, address: u32) -> Option<Seq<u8>> {
    match address_record_of(name, ANSWER_TTL, address) {
        Some(record) => encoded_message(
            query.0,
            answer_header_of(query.1),
            query.2,
            seq![record],
            Seq::empty(),
            Seq::empty(),
        ),
        None => None,
    }
}

/// Calls `dns_message_parser::Dns::decode` on a copy of the datagram and
/// keeps the identifier, the recursion flag and the questions of what it
/// returns. What the decoder returns is a function of the bytes; an error of
/// any kind becomes `None`. The decoder prints, and so may panic, where it
/// reads an option of code 15 in a record of type 41: `requires` leaves out
/// every datagram in which it could come to one.
#[verifier::external_body]
pub(crate) fn decode_query(datagram: &[u8]) -> (query: Option<Query>)
    requires
        is_quiet(datagram@),
    ensures
        view_of(query) == decoded_query(datagram@),
{
    match Dns::decode(Bytes::copy_from_slice(datagram)) {
        Ok(dns) => Some(Query { id: dns.id, recursion_desired: dns.flags.rd, questions: dns.questions }),
        Err(_) => None,
    }
}

/// Calls `dns_message_parser::DomainName::from_str` on the name and puts the
/// result, the time to live and the address, first field highest, into the
/// crate's `A` record. The name alone decides whether there is a result:
/// `from_str` cuts one `.` off the end, splits at each `.`, wants from 1 to 63
/// bytes in each part, and wants the parts and one byte more for each to stay
/// under 256 in all.
#[verifier::external_body]
pub(crate) fn address_record(name: &str, ttl: u32, address: u32) -> (record: Option<RR>)
    ensures
        record == address_record_of(name@, ttl, address),
        record is Some <==> names_a_domain(name@),
{
    Some(RR::A(A { domain_name: name.parse().ok()?, ttl, ipv4_addr: address.into() }))
}

/// Puts the header and the four sections into the crate's `Dns` and calls
/// `dns_message_parser::Dns::encode` on it; the codes become the crate's
/// `Opcode` and `RCode`. The encoder reads nothing but the message, so the
/// result is a function of the arguments; a code that the crate refuses, and
/// an error of the encoder, become `None`. Only address records are admitted
/// to the three record sections.
#[verifier::external_body]
pub(crate) fn encode_message(
    id: u16,
    header: &Header,
    questions: &Vec<Question>,
    answers: &Vec<RR>,
    authorities: &Vec<RR>,
    additionals: &Vec<RR>,
) -> (message: Option<Vec<u8>>)
    requires
        only_address_records(answers@),
        only_address_records(authorities@),
        only_address_records(additionals@),
    ensures
        bytes_of(message) == encoded_message(
            id,
            *header,
            questions@,
            answers@,
            authorities@,
            additionals@,
        ),
{
    let flags = Flags {
        qr: header.response, opcode: Opcode::try_from(header.opcode).ok()?, aa: header.authoritative,
        tc: header.truncated, rd: header.recursion_desired, ra: header.recursion_available,
        ad: header.authentic_data, cd: header.checking_disabled, rcode: RCode::try_from(header.rcode).ok()?,
    };
    let (questions, answers) = (questions.clone(), answers.clone());
    let (authorities, additionals) = (authorities.clone(), additionals.clone());
    let dns = Dns { id, flags, questions, answers, authorities, additionals };
    Some(dns.encode().ok()?.to_vec())
}

/// The header of an answer to a query with this recursion flag.
pub fn answer_header(recursion_desired: bool) -> (header: Header)
    ensures
        header == answer_header_of(recursion_desired),
{
    Header {
        response: true,
        opcode: OPCODE_QUERY,
        authoritative: false,
        truncated: false,
        recursion_desired,
        recursion_available: false,
        authentic_data: false,
        checking_disabled: false,
        rcode: RCODE_NO_ERROR,
    }
}

/// Whether each part of `text` has from 1 to 63 bytes.
fn has_fitting_labels(text: &[u8]) -> (fits: bool)
    ensures
        fits == labels_fit(text@),
{
    let mut from: usize = 0;
    proof {
        assert(text@.skip(0) =~= text@);
    }
    loop
        invariant
            from <= text.len(),
            labels_fit(text@.skip(from as int)) == labels_fit(text@),
        decreases text.len() - from,
    {
        let stop = find_stop(text, from, DOT);
        if stop - from < 1 || stop - from > 63 {
            return false;
        }
        if stop >= text.len() {
            return true;
        }
        proof {
            assert(text@.skip(from as int).skip(stop - from + 1) =~= text@.skip(stop + 1));
        }
        from = stop + 1;
    }
}

/// Whether this text writes a domain name.
pub fn is_domain_name_text(name: &str) -> (fits: bool)
    ensures
        fits == names_a_domain(name@),
{
    let bytes = name.as_bytes();
    let n = bytes.len();
    let end = if n > 0 && bytes[n - 1] == DOT {
        n - 1
    } else {
        n
    };
    if end > 254 {
        return false;
    }
    proof {
        assert(bytes@ == encode_utf8(name@));
        if end < n {
            assert(bytes@.last() == DOT);
            assert(bytes@.subrange(0, end as int) =~= bytes@.drop_last());
        } else {
            assert(bytes@.subrange(0, end as int) =~= bytes@);
        }
    }
    has_fitting_labels(slice_subrange(bytes, 0, end))
}

/// Whether the options that lie in `datagram` from `from` up to `to` hold one
/// that carries extended errors.
fn finds_error_option(datagram: &[u8], from: usize, to: usize) -> (found: bool)
    requires
        from <= to <= datagram.len(),
    ensures
        found == holds_error_option(datagram@.subrange(from as int, to as int)),
{
    let mut at: usize = from;
    while to - at >= 4
        invariant
            from <= at <= to <= datagram.len(),
            holds_error_option(datagram@.subrange(at as int, to as int)) == holds_error_option(
                datagram@.subrange(from as int, to as int),
            ),
        decreases to - at,
    {
        let ghost options = datagram@.subrange(at as int, to as int);
        proof {
            assert(options[0] == datagram@[at as int]);
            assert(options[1] == datagram@[at + 1]);
            assert(options[2] == datagram@[at + 2]);
            assert(options[3] == datagram@[at + 3]);
        }
        if datagram[at] == 0 && datagram[at + 1] == ERROR_OPTION {
            return true;
        }
        let length: usize = datagram[at + 2] as usize * 256 + datagram[at + 3] as usize;
        if length > to - at - 4 {
            return false;
        }
        proof {
            assert(options.skip(4 + length) =~= datagram@.subrange(at + 4 + length, to as int));
        }
        at = at + 4 + length;
    }
    false
}

/// Whether the decoder stays silent on this datagram.
pub fn stays_quiet(datagram: &[u8]) -> (quiet: bool)
    ensures
        quiet == is_quiet(datagram@),
{
    let n = datagram.len();
    if n < HEADER_LENGTH + 10 {
        return true;
    }
    let mut at: usize = HEADER_LENGTH;
    while at <= n - 10
        invariant
            HEADER_LENGTH <= at,
            HEADER_LENGTH + 10 <= n == datagram.len(),
            forall|k: int| HEADER_LENGTH <= k < at ==> !#[trigger] error_option_behind(datagram@, k),
        decreases n - at,
    {
        if datagram[at] == 0 && datagram[at + 1] == OPTIONS_TYPE {
            let length: usize = datagram[at + 8] as usize * 256 + datagram[at + 9] as usize;
            if length <= n - at - 10 && finds_error_option(datagram, at + 10, at + 10 + length) {
                proof {
                    assert(error_option_behind(datagram@, at as int));
                }
                return false;
            }
        }
        at += 1;
    }
    true
}

/// Decodes a datagram into the query that it holds.
pub fn read_query(datagram: &[u8]) -> (query: Option<Query>)
    ensures
        view_of(query) == query_in(datagram@),
{
    if stays_quiet(datagram) {
        decode_query(datagram)
    } else {
        None
    }
}

/// Encodes the answer to `query` that gives `address` for `name`. A name
/// that writes a domain name has its record, so that only the encoder is left
/// to decide whether there is a message.
pub fn write_answer(query: &Query, name: &str, address: u32) -> (message: Option<Vec<u8>>)
    ensures
        bytes_of(message) == answer_to(query@, name@, address),
        address_record_of(name@, ANSWER_TTL, address) is Some <==> names_a_domain(name@),
        !names_a_domain(name@) ==> message is None,
{
    match address_record(name, ANSWER_TTL, address) {
        Some(record) => {
            let ghost made = record;
            let header = answer_header(query.recursion_desired);
            let mut answers: Vec<RR> = Vec::new();
            answers.push(record);
            let authorities: Vec<RR> = Vec::new();
            let additionals: Vec<RR> = Vec::new();
            proof {
                assert(address_record_of(name@, ANSWER_TTL, address) == Some(made));
                assert(is_address_record(made));
                assert(answers@ =~= seq![made]);
                assert(authorities@ =~= Seq::<RR>::empty());
                assert(additionals@ =~= Seq::<RR>::empty());
            }
            encode_message(query.id, &header, &query.questions, &answers, &authorities, &additionals)
        },
        None => None,
    }
}

} // verus!
