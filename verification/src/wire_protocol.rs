//! The binary framing of responses: what the server writes and what a
//! client reads back.

pub mod insert;
pub mod query;
pub mod round_trip;

use vstd::prelude::*;
use vstd::utf8::{decode_utf8, encode_utf8, valid_utf8};

use crate::encoding::{
    be_u16, be_u64, lemma_u16_round_trip, push_u16_be, push_u64_be, read_u64_be, text_of_utf8,
    u16_be, u64_be,
};
use crate::execution::{ClientQueryResult, ExecutionResult, InsertionResult};
use crate::wire_protocol::insert::{build_insert_result, insert_bytes, parse_insert_result};
use crate::wire_protocol::query::{
    build_query_result, parse_query_result, query_at, query_bytes, wire_valid, ByteReader,
    QueryModel,
};

verus! {

/// The type of the values that a field carries.
#[derive(Clone, Copy, Debug, PartialEq, Eq, Structural)]
pub enum DataType {
    Float,
    Bool,
    Timestamp,
}

impl DataType {
    /// The tag byte that stands for the type on the wire.
    pub open spec fn tag(self) -> u8 {
        match self {
            DataType::Float => 0,
            DataType::Bool => 1,
            DataType::Timestamp => 2,
        }
    }

    /// The type that a tag byte up to 2 stands for.
    pub open spec fn of_tag(tag: u8) -> DataType {
        if tag == 0 {
            DataType::Float
        } else if tag == 1 {
            DataType::Bool
        } else {
            DataType::Timestamp
        }
    }

    pub fn to_tag(self) -> (t: u8)
        ensures
            t == self.tag(),
    {
        match self {
            DataType::Float => 0,
            DataType::Bool => 1,
            DataType::Timestamp => 2,
        }
    }

    /// The type that a tag byte stands for, if any.
    pub fn try_from(value: u8) -> (r: Result<DataType, ()>)
        ensures
            r is Ok <==> value <= 2,
            r is Ok ==> r->Ok_0 == DataType::of_tag(value),
    {
        match value {
            0 => Ok(DataType::Float),
            1 => Ok(DataType::Bool),
            2 => Ok(DataType::Timestamp),
            _ => Err(()),
        }
    }
}

/// A field of a result: its name and the type of its values.
#[derive(Clone, Debug, PartialEq, Eq)]
pub struct FieldDescription {
    pub name: String,
    pub data_type: DataType,
}

/// What a field description says.
pub struct DescriptionModel {
    pub name: Seq<char>,
    pub data_type: DataType,
}

impl View for FieldDescription {
    type V = DescriptionModel;

    open spec fn view(&self) -> DescriptionModel {
        DescriptionModel { name: self.name@, data_type: self.data_type }
    }
}

/// Why the bytes of a response were refused.
#[derive(Clone, Copy, Debug, PartialEq, Eq, Structural)]
pub enum WireError {
    /// The bytes end before the response does.
    Truncated,
    /// The first byte names no kind of response.
    UnknownKind,
    /// A field's tag names no type.
    UnknownType,
    /// A name or a statement is not UTF-8.
    InvalidText,
    /// What is to be written does not fit a frame: a count or a length is
    /// past what its place in the frame can hold, or a result's count is
    /// not the number of its rows.
    Unwritable,
}

/// The outcome of a statement as a client sees it.
#[derive(Debug, PartialEq)]
pub enum ClientExecutionResult {
    Query(ClientQueryResult),
    Insert(InsertionResult),
}

/// What a response says.
pub enum ResultModel {
    Query(QueryModel),
    Insert(bool),
}

impl View for ClientExecutionResult {
    type V = ResultModel;

    open spec fn view(&self) -> ResultModel {
        match self {
            ClientExecutionResult::Query(result) => ResultModel::Query(result@),
            ClientExecutionResult::Insert(result) => ResultModel::Insert(result.success),
        }
    }
}

/// The response to a statement: the kind byte, 1 for a query and 2 for an
/// insert, then the payload.
pub open spec fn response_bytes(result: ExecutionResult) -> Seq<u8> {
    match result {
        ExecutionResult::Query(query) => query_bytes(query),
        ExecutionResult::Insert(insert) => insert_bytes(insert),
    }
}

/// What the bytes of a response say, or why they are refused.
pub open spec fn result_of(bytes: Seq<u8>) -> Result<ResultModel, WireError> {
    if bytes.len() == 0 {
        Err(WireError::Truncated)
    } else if bytes[0] == 1 {
        match query_at(bytes, 1) {
            Ok((query, _)) => Ok(ResultModel::Query(query)),
            Err(e) => Err(e),
        }
    } else if bytes[0] == 2 {
        if bytes.len() < 2 {
            Err(WireError::Truncated)
        } else {
            Ok(ResultModel::Insert(bytes[1] == 1))
        }
    } else {
        Err(WireError::UnknownKind)
    }
}

/// The frame of a response: the length of the response in eight bytes, most
/// significant first, then the response.
pub open spec fn frame_bytes(response: Seq<u8>) -> Seq<u8> {
    u64_be(response.len() as int) + response
}

/// The outcome of a statement fits a frame: every insert's does, and a
/// query's where the result is within the limits of the frame.
pub open spec fn can_respond(result: ExecutionResult) -> bool {
    match result {
        ExecutionResult::Query(query) => wire_valid(query),
        ExecutionResult::Insert(_) => true,
    }
}

/// Appends the response to a statement to `out`. An outcome that does not
/// fit a frame is refused, and `out` stays as it is.
pub fn build_response(result: &ExecutionResult, out: &mut Vec<u8>) -> (r: Result<(), WireError>)
    ensures
        match r {
            Ok(()) => can_respond(*result) && final(out)@ == old(out)@ + response_bytes(*result),
            Err(e) => e == WireError::Unwritable && !can_respond(*result) && final(out)@ == old(out)@,
        },
{
    match result {
        ExecutionResult::Query(query) => build_query_result(query, out),
        ExecutionResult::Insert(insert) => {
            build_insert_result(insert, out);
            Ok(())
        },
    }
}

/// The frame of the response to a statement, ready to send; an outcome that
/// does not fit a frame is refused.
pub fn frame_response(result: &ExecutionResult) -> (r: Result<Vec<u8>, WireError>)
    ensures
        match r {
            Ok(frame) => can_respond(*result) && frame@ == frame_bytes(response_bytes(*result)),
            Err(e) => e == WireError::Unwritable && !can_respond(*result),
        },
{
    let mut response: Vec<u8> = Vec::new();
    match build_response(result, &mut response) {
        Ok(()) => {},
        Err(e) => {
            return Err(e);
        },
    }
    assert(response@ =~= response_bytes(*result));
    let mut frame: Vec<u8> = Vec::new();
    push_u64_be(&mut frame, response.len() as u64);
    frame.append(&mut response);
    assert(frame@ =~= frame_bytes(response_bytes(*result)));
    Ok(frame)
}

/// Reads a response.
pub fn parse_result(buffer: &[u8]) -> (r: Result<ClientExecutionResult, WireError>)
    ensures
        match result_of(buffer@) {
            Ok(model) => r is Ok && r->Ok_0@ == model,
            Err(e) => r == Err::<ClientExecutionResult, WireError>(e),
        },
{
    let mut cursor = ByteReader::new(buffer);
    match cursor.read_u8() {
        None => Err(WireError::Truncated),
        Some(kind) => {
            if kind == 1 {
                match parse_query_result(&mut cursor) {
                    Ok(result) => Ok(ClientExecutionResult::Query(result)),
                    Err(e) => Err(e),
                }
            } else if kind == 2 {
                match parse_insert_result(&mut cursor) {
                    Ok(result) => Ok(ClientExecutionResult::Insert(result)),
                    Err(e) => Err(e),
                }
            } else {
                Err(WireError::UnknownKind)
            }
        },
    }
}

/// Appends the text to `out` after its length in bytes, which stands in two
/// bytes, most significant first. A text of more than 65535 bytes is
/// refused, and `out` stays as it is.
pub fn push_str(out: &mut Vec<u8>, text: &str) -> (r: Result<(), WireError>)
    ensures
        match r {
            Ok(()) => encode_utf8(text@).len() <= 65535 && final(out)@ == old(out)@ + text_bytes(
                text@,
            ),
            Err(e) => e == WireError::Unwritable && encode_utf8(text@).len() > 65535 && final(out)@ == old(out)@,
        },
{
    let bytes = text.as_bytes();
    if bytes.len() > 65535 {
        return Err(WireError::Unwritable);
    }
    push_u16_be(out, bytes.len() as u16);
    let mut i: usize = 0;
    let ghost start = out@;
    while i < bytes.len()
        invariant
            i <= bytes@.len(),
            out@ == start + bytes@.take(i as int),
        decreases bytes.len() - i,
    {
        out.push(bytes[i]);
        assert(out@ =~= start + bytes@.take(i as int + 1));
        i += 1;
    }
    assert(bytes@.take(bytes@.len() as int) =~= bytes@);
    assert(out@ =~= old(out)@ + text_bytes(text@));
    Ok(())
}

/// A text on the wire: the length of its UTF-8 encoding in two bytes, most
/// significant first, then the encoding.
pub open spec fn text_bytes(text: Seq<char>) -> Seq<u8> {
    u16_be(encode_utf8(text).len() as int) + encode_utf8(text)
}

/// The frame of a statement: the length of its UTF-8 encoding in two
/// bytes, most significant first, then the encoding.
pub open spec fn request_bytes(statement: Seq<char>) -> Seq<u8> {
    u16_be(encode_utf8(statement).len() as int) + encode_utf8(statement)
}

/// The statement that the bytes of a request frame hold, or why they are refused.
pub open spec fn request_of(frame: Seq<u8>) -> Result<Seq<char>, WireError> {
    if frame.len() < 2 || frame.len() < 2 + be_u16(frame) {
        Err(WireError::Truncated)
    } else if !valid_utf8(frame.subrange(2, 2 + be_u16(frame))) {
        Err(WireError::InvalidText)
    } else {
        Ok(decode_utf8(frame.subrange(2, 2 + be_u16(frame))))
    }
}

/// The frame of a statement, ready to send; nothing for a statement of
/// more than 65535 bytes, whose length the frame cannot hold.
pub fn build_request(statement: &str) -> (frame: Option<Vec<u8>>)
    ensures
        frame is Some <==> encode_utf8(statement@).len() <= 65535,
        frame matches Some(bytes) ==> bytes@ == request_bytes(statement@),
{
    let mut frame: Vec<u8> = Vec::new();
    match push_str(&mut frame, statement) {
        Ok(()) => {
            assert(frame@ =~= request_bytes(statement@));
            Some(frame)
        },
        Err(_) => None,
    }
}

/// Reads the statement of a request frame. Bytes after the statement are left alone.
pub fn parse_request(frame: &[u8]) -> (r: Result<String, WireError>)
    ensures
        match request_of(frame@) {
            Ok(statement) => r is Ok && r->Ok_0@ == statement,
            Err(e) => r == Err::<String, WireError>(e),
        },
{
    let mut cursor = ByteReader::new(frame);
    let len = match cursor.read_u16() {
        Some(len) => len,
        None => {
            return Err(WireError::Truncated);
        },
    };
    assert(frame@.subrange(0, 2)[0] == frame@[0] && frame@.subrange(0, 2)[1] == frame@[1]);
    let raw = match cursor.read_bytes(len as usize) {
        Some(raw) => raw,
        None => {
            return Err(WireError::Truncated);
        },
    };
    match text_of_utf8(raw) {
        Some(statement) => Ok(statement),
        None => Err(WireError::InvalidText),
    }
}

/// Request round trip. The frame of a statement of at most 65535 bytes
/// reads back as the statement.
pub proof fn lemma_request_round_trip(statement: Seq<char>)
    requires
        encode_utf8(statement).len() <= 65535,
    ensures
        request_of(request_bytes(statement)) == Ok::<Seq<char>, WireError>(statement),
{
    let raw = encode_utf8(statement);
    let frame = request_bytes(statement);
    lemma_u16_round_trip(raw.len() as int);
    assert(frame[0] == u16_be(raw.len() as int)[0]);
    assert(frame[1] == u16_be(raw.len() as int)[1]);
    assert(frame.subrange(2, 2 + raw.len() as int) =~= raw);
    vstd::utf8::encode_utf8_valid_utf8(statement);
    vstd::utf8::encode_utf8_decode_utf8(statement);
}

/// The length of the response that follows the first eight bytes of a
/// frame; nothing where fewer than eight bytes are there.
pub fn frame_length(header: &[u8]) -> (length: Option<u64>)
    ensures
        length == if header@.len() >= 8 {
            Some(be_u64(header@) as u64)
        } else {
            None
        },
{
    if header.len() >= 8 {
        Some(read_u64_be(header))
    } else {
        None
    }
}

} // verus!
