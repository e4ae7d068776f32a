//! The opaque texts that clients hand back: where a reader of an aggregate type is,
//! where a listing of states is, and which delivery is meant.
//!
//! They are what `bincode` makes of their fields.

use vstd::prelude::*;

use crate::status::{Code, Status, StatusView, says};
use crate::text::{join2, join3, same_text, text_views};

verus! {

/// The version of a reader's place.
pub const CURSOR_VERSION: u8 = 1;

/// The version of a listing's place.
pub const STATE_PAGE_TOKEN_VERSION: u8 = 1;

/// The version of a delivery's name.
pub const DELIVERY_TOKEN_VERSION: u8 = 1;

/// Names an aggregate type.
#[derive(Debug)]
pub struct AggregateTypeId {
    pub business_space: String,
    pub aggregate_type: String,
}

/// Contents of an [`AggregateTypeId`].
#[verifier::ext_equal]
pub struct TypeView {
    pub space: Seq<char>,
    pub kind: Seq<char>,
}

impl View for AggregateTypeId {
    type V = TypeView;

    open spec fn view(&self) -> TypeView {
        TypeView { space: self.business_space@, kind: self.aggregate_type@ }
    }
}

impl Clone for AggregateTypeId {
    fn clone(&self) -> (r: AggregateTypeId)
        ensures
            r@ == self@,
    {
        AggregateTypeId {
            business_space: self.business_space.clone(),
            aggregate_type: self.aggregate_type.clone(),
        }
    }
}

impl AggregateTypeId {
    /// True if both name the same aggregate type.
    pub fn same(&self, other: &AggregateTypeId) -> (r: bool)
        ensures
            r == (self@ == other@),
    {
        same_text(self.business_space.as_str(), other.business_space.as_str()) && same_text(
            self.aggregate_type.as_str(),
            other.aggregate_type.as_str(),
        )
    }
}

/// The fields of a reader's place.
#[verifier::ext_equal]
pub struct CursorFields {
    pub version: u8,
    pub id: TypeView,
    pub next_positions: Seq<u64>,
}

/// The fields of a listing's place.
#[verifier::ext_equal]
pub struct PageFields {
    pub version: u8,
    pub id: TypeView,
    pub after: Seq<Seq<char>>,
}

/// The fields of a delivery's name.
#[verifier::ext_equal]
pub struct DeliveryFields {
    pub version: u8,
    pub id: TypeView,
    pub group: Seq<char>,
    pub partition: u16,
    pub epoch: u64,
    pub delivery: u128,
}

/// What `bincode::serde::encode_to_vec` makes of the fields of a reader's place.
pub uninterp spec fn cursor_bytes(
    version: u8,
    space: Seq<char>,
    kind: Seq<char>,
    next_positions: Seq<u64>,
) -> Seq<u8>;

/// What `bincode::serde::borrow_decode_from_slice` reads as the fields of a reader's
/// place, and how many bytes it takes for that; `None` if it fails.  The number of
/// items in a list is cut to the machine's word size, of `word_bits` bits.
pub uninterp spec fn cursor_read(bytes: Seq<u8>, word_bits: u32) -> Option<
    ((u8, Seq<char>, Seq<char>, Seq<u64>), nat),
>;

/// What `bincode::serde::encode_to_vec` makes of the fields of a listing's place.
pub uninterp spec fn page_bytes(
    version: u8,
    space: Seq<char>,
    kind: Seq<char>,
    after: Seq<Seq<char>>,
) -> Seq<u8>;

/// What `bincode::serde::borrow_decode_from_slice` reads as the fields of a listing's
/// place, and how many bytes it takes for that; `None` if it fails.  The number of
/// items in a list is cut to the machine's word size, of `word_bits` bits.
pub uninterp spec fn page_read(bytes: Seq<u8>, word_bits: u32) -> Option<
    ((u8, Seq<char>, Seq<char>, Seq<Seq<char>>), nat),
>;

/// What `bincode::serde::encode_to_vec` makes of the fields of a delivery's name.
pub uninterp spec fn delivery_bytes(
    version: u8,
    space: Seq<char>,
    kind: Seq<char>,
    group: Seq<char>,
    partition: u16,
    epoch: u64,
    delivery: u128,
) -> Seq<u8>;

/// What `bincode::serde::borrow_decode_from_slice` reads as the fields of a delivery's
/// name, and how many bytes it takes for that; `None` if it fails.
pub uninterp spec fn delivery_read(bytes: Seq<u8>) -> Option<
    ((u8, Seq<char>, Seq<char>, Seq<char>, u16, u64, u128), nat),
>;

/// Reading a reader's place gives these fields and takes all of `b`, whatever follows.
pub open spec fn cursor_reads_back(b: Seq<u8>, f: (u8, Seq<char>, Seq<char>, Seq<u64>)) -> bool {
    forall|rest: Seq<u8>| #[trigger] cursor_read(b + rest, usize::BITS) == Some((f, b.len()))
}

/// Reading a listing's place gives these fields and takes all of `b`, whatever follows.
pub open spec fn page_reads_back(b: Seq<u8>, f: (u8, Seq<char>, Seq<char>, Seq<Seq<char>>)) -> bool {
    forall|rest: Seq<u8>| #[trigger] page_read(b + rest, usize::BITS) == Some((f, b.len()))
}

/// Reading a delivery's name gives these fields and takes all of `b`, whatever follows.
pub open spec fn delivery_reads_back(
    b: Seq<u8>,
    f: (u8, Seq<char>, Seq<char>, Seq<char>, u16, u64, u128),
) -> bool {
    forall|rest: Seq<u8>| #[trigger] delivery_read(b + rest) == Some((f, b.len()))
}

/// `bincode::serde::encode_to_vec` on a tuple of the fields of a reader's place, in
/// the standard configuration.
///
/// Encoding integers, texts and lists into a vector does not fail.  The encodings of
/// the fields stand one after the other, each of known length when its beginning has
/// been read; so on the same machine `bincode::serde::borrow_decode_from_slice` gives
/// the fields back and takes exactly these bytes, whatever follows them.
#[verifier::external_body]
fn encode_cursor_fields(version: u8, space: &str, kind: &str, next_positions: &Vec<u64>) -> (r:
    Result<Vec<u8>, String>)
    ensures
        r is Ok,
        r->Ok_0@ == cursor_bytes(version, space@, kind@, next_positions@),
        cursor_reads_back(r->Ok_0@, (version, space@, kind@, next_positions@)),
{
    let fields = (version, space, kind, next_positions);
    bincode::serde::encode_to_vec(fields, bincode::config::standard()).map_err(|e| e.to_string())
}

/// `bincode::serde::borrow_decode_from_slice` into a tuple of the fields of a reader's
/// place, in the standard configuration.
///
/// The texts are borrowed from the bytes, so that a length is held against what is
/// there before anything is made of it: bytes that announce more than they hold are
/// an error.  The text of an error is left unsaid: it can depend on the machine's word size.
#[verifier::external_body]
fn decode_cursor_fields(bytes: &Vec<u8>) -> (r: Result<
    ((u8, String, String, Vec<u64>), usize),
    String,
>)
    ensures
        match r {
            Ok((f, n)) => cursor_read(bytes@, usize::BITS) == Some(((f.0, f.1@, f.2@, f.3@), n as nat)),
            Err(_) => cursor_read(bytes@, usize::BITS) is None,
        },
{
    let read: Result<((u8, &str, &str, Vec<u64>), usize), _> =
        bincode::serde::borrow_decode_from_slice(bytes, bincode::config::standard());
    read.map(|(f, n)| ((f.0, f.1.to_string(), f.2.to_string(), f.3), n)).map_err(|e| e.to_string())
}

/// `bincode::serde::encode_to_vec` on a tuple of the fields of a listing's place, in
/// the standard configuration.  It does not fail and gives at least the byte of the
/// version, and decoding gives the fields back and takes exactly these bytes, as for a
/// reader's place.
#[verifier::external_body]
fn encode_page_fields(version: u8, space: &str, kind: &str, after: &Vec<String>) -> (r: Result<
    Vec<u8>,
    String,
>)
    ensures
        r is Ok,
        r->Ok_0@ == page_bytes(version, space@, kind@, text_views(after@)),
        r->Ok_0@.len() > 0,
        page_reads_back(r->Ok_0@, (version, space@, kind@, text_views(after@))),
{
    let fields = (version, space, kind, after);
    bincode::serde::encode_to_vec(fields, bincode::config::standard()).map_err(|e| e.to_string())
}

/// `bincode::serde::borrow_decode_from_slice` into a tuple of the fields of a listing's
/// place, in the standard configuration, with borrowed texts as for a reader's place.
/// The text of an error is left unsaid.
#[verifier::external_body]
fn decode_page_fields(bytes: &Vec<u8>) -> (r: Result<
    ((u8, String, String, Vec<String>), usize),
    String,
>)
    ensures
        match r {
            Ok((f, n)) => page_read(bytes@, usize::BITS) == Some(
                ((f.0, f.1@, f.2@, text_views(f.3@)), n as nat),
            ),
            Err(_) => page_read(bytes@, usize::BITS) is None,
        },
{
    let read: Result<((u8, &str, &str, Vec<&str>), usize), _> =
        bincode::serde::borrow_decode_from_slice(bytes, bincode::config::standard());
    read.map(|(f, n)| {
        let after = f.3.into_iter().map(String::from).collect();
        ((f.0, f.1.to_string(), f.2.to_string(), after), n)
    }).map_err(|e| e.to_string())
}

/// `bincode::serde::encode_to_vec` on a tuple of the fields of a delivery's name, the
/// identifier as `uuid::Uuid`, in the standard configuration.  It does not fail, and
/// decoding gives the fields back and takes exactly these bytes, as for a reader's
/// place.
#[verifier::external_body]
fn encode_delivery_fields(
    version: u8,
    id: &AggregateTypeId,
    group: &str,
    partition: u16,
    epoch: u64,
    delivery: u128,
) -> (r: Result<Vec<u8>, String>)
    ensures
        r is Ok,
        r->Ok_0@ == delivery_bytes(
            version,
            id@.space,
            id@.kind,
            group@,
            partition,
            epoch,
            delivery,
        ),
        delivery_reads_back(
            r->Ok_0@,
            (version, id@.space, id@.kind, group@, partition, epoch, delivery),
        ),
{
    let (space, kind) = (&id.business_space, &id.aggregate_type);
    let fields =
        (version, space, kind, group, partition, epoch, uuid::Uuid::from_u128(delivery));
    bincode::serde::encode_to_vec(fields, bincode::config::standard()).map_err(|e| e.to_string())
}

/// `bincode::serde::borrow_decode_from_slice` into a tuple of the fields of a
/// delivery's name, the identifier as `uuid::Uuid`, in the standard configuration, with
/// borrowed texts as for a reader's place.  The text of an error is left unsaid.
#[verifier::external_body]
fn decode_delivery_fields(bytes: &Vec<u8>) -> (r: Result<
    ((u8, String, String, String, u16, u64, u128), usize),
    String,
>)
    ensures
        match r {
            Ok((f, n)) => delivery_read(bytes@) == Some(
                ((f.0, f.1@, f.2@, f.3@, f.4, f.5, f.6), n as nat),
            ),
            Err(_) => delivery_read(bytes@) is None,
        },
{
    let read: Result<((u8, &str, &str, &str, u16, u64, uuid::Uuid), usize), _> =
        bincode::serde::borrow_decode_from_slice(bytes, bincode::config::standard());
    read.map(|(f, n)| {
        let (space, kind, group) = (f.1.to_string(), f.2.to_string(), f.3.to_string());
        ((f.0, space, kind, group, f.4, f.5, f.6.as_u128()), n)
    }).map_err(|e| e.to_string())
}

/// Where a reader of an aggregate type is: the next position in each partition.
#[derive(Debug)]
pub struct AggregateCursor {
    pub version: u8,
    pub aggregate_type: AggregateTypeId,
    pub next_positions: Vec<u64>,
}

impl View for AggregateCursor {
    type V = CursorFields;

    open spec fn view(&self) -> CursorFields {
        CursorFields {
            version: self.version,
            id: self.aggregate_type@,
            next_positions: self.next_positions@,
        }
    }
}

/// Where a listing of states is: in each partition, the aggregate last listed.
#[derive(Debug)]
pub struct StatePageToken {
    pub version: u8,
    pub aggregate_type: AggregateTypeId,
    pub after_aggregate_ids: Vec<String>,
}

impl View for StatePageToken {
    type V = PageFields;

    open spec fn view(&self) -> PageFields {
        PageFields {
            version: self.version,
            id: self.aggregate_type@,
            after: text_views(self.after_aggregate_ids@),
        }
    }
}

/// Names a delivery.
#[derive(Debug)]
pub struct DeliveryToken {
    pub version: u8,
    pub aggregate_type: AggregateTypeId,
    pub group_name: String,
    pub partition_id: u16,
    pub group_epoch: u64,
    pub delivery_id: u128,
}

impl View for DeliveryToken {
    type V = DeliveryFields;

    open spec fn view(&self) -> DeliveryFields {
        DeliveryFields {
            version: self.version,
            id: self.aggregate_type@,
            group: self.group_name@,
            partition: self.partition_id,
            epoch: self.group_epoch,
            delivery: self.delivery_id,
        }
    }
}

/// What reading bytes comes to.
pub enum Reading<T> {
    /// They are not what is to be read.
    Unreadable,
    /// They are, but cannot be accepted.
    Refused(StatusView),
    Reads(T),
}

/// The reply to bytes that cannot be read; what the reader says of them is not known
/// beforehand.
pub open spec fn is_unreadable(s: StatusView, name: Seq<char>) -> bool {
    exists|error: Seq<char>|
        s == #[trigger] says(Code::Internal, name + " 解码失败: "@ + error)
}

/// The reply to bytes with more behind what is read.
pub open spec fn has_trailing(name: Seq<char>) -> StatusView {
    says(Code::InvalidArgument, name + " 包含多余字节"@)
}

/// The result is what the reading comes to.
pub open spec fn answers<T: View>(
    r: Result<T, Status>,
    reading: Reading<<T as View>::V>,
    name: Seq<char>,
) -> bool {
    match reading {
        Reading::Unreadable => r matches Err(s) && is_unreadable(s@, name),
        Reading::Refused(v) => r matches Err(s) && s@ == v,
        Reading::Reads(t) => r matches Ok(c) && c@ == t,
    }
}

fn unreadable(name: &str, error: &str) -> (s: Status)
    ensures
        is_unreadable(s@, name@),
{
    let s = Status::new(Code::Internal, join3(name, " 解码失败: ", error));
    assert(s@ == says(Code::Internal, name@ + " 解码失败: "@ + error@));
    s
}

fn trailing(name: &str) -> (s: Status)
    ensures
        s@ == has_trailing(name@),
{
    Status::new(Code::InvalidArgument, join2(name, " 包含多余字节"))
}

fn unwritable(name: &str, error: &str) -> (s: Status)
    ensures
        s@ == says(Code::Internal, name@ + " 编码失败: "@ + error@),
{
    Status::new(Code::Internal, join3(name, " 编码失败: ", error))
}

/// Writes down where a reader is.
pub fn encode_cursor(cursor: &AggregateCursor) -> (r: Result<Vec<u8>, Status>)
    ensures
        r matches Ok(b) && b@ == written_cursor(cursor@) && cursor_reads_back(
            b@,
            cursor_tuple(cursor@),
        ),
{
    match encode_cursor_fields(
        cursor.version,
        cursor.aggregate_type.business_space.as_str(),
        cursor.aggregate_type.aggregate_type.as_str(),
        &cursor.next_positions,
    ) {
        Ok(b) => Ok(b),
        Err(e) => Err(unwritable("aggregate cursor", e.as_str())),
    }
}

/// The bytes of a reader's place.
pub open spec fn written_cursor(c: CursorFields) -> Seq<u8> {
    cursor_bytes(c.version, c.id.space, c.id.kind, c.next_positions)
}

/// The fields of a reader's place, one after the other.
pub open spec fn cursor_tuple(c: CursorFields) -> (u8, Seq<char>, Seq<char>, Seq<u64>) {
    (c.version, c.id.space, c.id.kind, c.next_positions)
}

/// What `len` bytes that are read like this come to as the place of a reader of this
/// aggregate type.
pub open spec fn cursor_reading(
    read: Option<((u8, Seq<char>, Seq<char>, Seq<u64>), nat)>,
    len: nat,
    id: TypeView,
    partition_count: u16,
) -> Reading<CursorFields> {
    match read {
        None => Reading::Unreadable,
        Some((f, taken)) => if taken != len {
            Reading::Refused(has_trailing("aggregate cursor"@))
        } else if f.0 != CURSOR_VERSION || (TypeView { space: f.1, kind: f.2 }) != id || f.3.len()
            != partition_count {
            Reading::Refused(
                says(Code::InvalidArgument, "cursor 版本、聚合类型或分区数量不匹配"@),
            )
        } else {
            Reading::Reads(CursorFields { version: f.0, id, next_positions: f.3 })
        },
    }
}

/// Accepts the place of a reader of an aggregate type, once its bytes have been read.
pub fn check_cursor(
    read: Result<((u8, String, String, Vec<u64>), usize), String>,
    len: usize,
    aggregate_type: &AggregateTypeId,
    partition_count: u16,
) -> (r: Result<AggregateCursor, Status>)
    ensures
        answers(
            r,
            cursor_reading(
                match read {
                    Ok((f, n)) => Some(((f.0, f.1@, f.2@, f.3@), n as nat)),
                    Err(_) => None,
                },
                len as nat,
                aggregate_type@,
                partition_count,
            ),
            "aggregate cursor"@,
        ),
{
    let (f, taken) = match read {
        Ok(x) => x,
        Err(e) => return Err(unreadable("aggregate cursor", e.as_str())),
    };
    if taken != len {
        return Err(trailing("aggregate cursor"));
    }
    let cursor = AggregateCursor {
        version: f.0,
        aggregate_type: AggregateTypeId { business_space: f.1, aggregate_type: f.2 },
        next_positions: f.3,
    };
    if cursor.version != CURSOR_VERSION || !cursor.aggregate_type.same(aggregate_type)
        || cursor.next_positions.len() != partition_count as usize {
        return Err(Status::of(Code::InvalidArgument, "cursor 版本、聚合类型或分区数量不匹配"));
    }
    Ok(cursor)
}

/// Reads where a reader of an aggregate type is.
pub fn decode_cursor(bytes: &Vec<u8>, aggregate_type: &AggregateTypeId, partition_count: u16) -> (r:
    Result<AggregateCursor, Status>)
    ensures
        answers(
            r,
            cursor_reading(
                cursor_read(bytes@, usize::BITS),
                bytes@.len(),
                aggregate_type@,
                partition_count,
            ),
            "aggregate cursor"@,
        ),
{
    let len: usize = bytes.len();
    check_cursor(decode_cursor_fields(bytes), len, aggregate_type, partition_count)
}

/// What was written down of a reader's place is read back as it was, by a reader of the
/// same aggregate type; any other reader, and any byte behind it, is refused.
pub proof fn law_cursor_round_trip(
    b: Seq<u8>,
    c: CursorFields,
    id: TypeView,
    partition_count: u16,
    rest: Seq<u8>,
)
    requires
        cursor_reads_back(b, cursor_tuple(c)),
    ensures
        c.version == CURSOR_VERSION && c.id == id && c.next_positions.len() == partition_count
            ==> cursor_reading(
            cursor_read(b, usize::BITS),
            b.len(),
            id,
            partition_count,
        ) == Reading::Reads(c),
        !(c.version == CURSOR_VERSION && c.id == id && c.next_positions.len() == partition_count)
            ==> cursor_reading(cursor_read(b, usize::BITS), b.len(), id, partition_count) is Refused,
        rest.len() > 0 ==> cursor_reading(
            cursor_read(b + rest, usize::BITS),
            (b + rest).len(),
            id,
            partition_count,
        ) == Reading::<CursorFields>::Refused(has_trailing("aggregate cursor"@)),
{
    assert(cursor_read(b + Seq::<u8>::empty(), usize::BITS) == Some((cursor_tuple(c), b.len())));
    assert(b + Seq::<u8>::empty() =~= b);
    assert(cursor_read(b + rest, usize::BITS) == Some((cursor_tuple(c), b.len())));
}

/// The bytes of a listing's place.
pub open spec fn written_page(t: PageFields) -> Seq<u8> {
    page_bytes(t.version, t.id.space, t.id.kind, t.after)
}

/// The fields of a listing's place, one after the other.
pub open spec fn page_tuple(t: PageFields) -> (u8, Seq<char>, Seq<char>, Seq<Seq<char>>) {
    (t.version, t.id.space, t.id.kind, t.after)
}

/// Writes down where a listing of states is.
pub fn encode_state_page_token(token: &StatePageToken) -> (r: Result<Vec<u8>, Status>)
    ensures
        r matches Ok(b) && b@.len() > 0 && b@ == written_page(token@) && page_reads_back(
            b@,
            page_tuple(token@),
        ),
{
    match encode_page_fields(
        token.version,
        token.aggregate_type.business_space.as_str(),
        token.aggregate_type.aggregate_type.as_str(),
        &token.after_aggregate_ids,
    ) {
        Ok(b) => Ok(b),
        Err(e) => Err(unwritable("state page token", e.as_str())),
    }
}

/// The place of a listing that has not begun.
pub open spec fn first_page(id: TypeView, partition_count: u16) -> PageFields {
    PageFields {
        version: STATE_PAGE_TOKEN_VERSION,
        id,
        after: Seq::new(partition_count as nat, |i: int| Seq::<char>::empty()),
    }
}

/// What `len` bytes that are read like this come to as the place of a listing of this
/// aggregate type.
pub open spec fn page_reading(
    read: Option<((u8, Seq<char>, Seq<char>, Seq<Seq<char>>), nat)>,
    len: nat,
    id: TypeView,
    partition_count: u16,
) -> Reading<PageFields> {
    if len == 0 {
        Reading::Reads(first_page(id, partition_count))
    } else {
        match read {
            None => Reading::Unreadable,
            Some((f, taken)) => if taken != len {
                Reading::Refused(has_trailing("state page token"@))
            } else if f.0 != STATE_PAGE_TOKEN_VERSION || (TypeView { space: f.1, kind: f.2 }) != id
                || f.3.len() != partition_count {
                Reading::Refused(
                    says(Code::InvalidArgument, "page_token 版本、聚合类型或分区数量不匹配"@),
                )
            } else {
                Reading::Reads(PageFields { version: f.0, id, after: f.3 })
            },
        }
    }
}

/// Accepts the place of a listing of an aggregate type, once its bytes have been read.
pub fn check_state_page_token(
    read: Result<((u8, String, String, Vec<String>), usize), String>,
    len: usize,
    aggregate_type: &AggregateTypeId,
    partition_count: u16,
) -> (r: Result<StatePageToken, Status>)
    requires
        len > 0,
    ensures
        answers(
            r,
            page_reading(
                match read {
                    Ok((f, n)) => Some(((f.0, f.1@, f.2@, text_views(f.3@)), n as nat)),
                    Err(_) => None,
                },
                len as nat,
                aggregate_type@,
                partition_count,
            ),
            "state page token"@,
        ),
{
    let (f, taken) = match read {
        Ok(x) => x,
        Err(e) => return Err(unreadable("state page token", e.as_str())),
    };
    if taken != len {
        return Err(trailing("state page token"));
    }
    let token = StatePageToken {
        version: f.0,
        aggregate_type: AggregateTypeId { business_space: f.1, aggregate_type: f.2 },
        after_aggregate_ids: f.3,
    };
    if token.version != STATE_PAGE_TOKEN_VERSION || !token.aggregate_type.same(aggregate_type)
        || token.after_aggregate_ids.len() != partition_count as usize {
        return Err(
            Status::of(Code::InvalidArgument, "page_token 版本、聚合类型或分区数量不匹配"),
        );
    }
    Ok(token)
}

/// Reads where a listing of states is; nothing stands for its beginning.
pub fn decode_state_page_token(
    bytes: &Vec<u8>,
    aggregate_type: &AggregateTypeId,
    partition_count: u16,
) -> (r: Result<StatePageToken, Status>)
    ensures
        answers(
            r,
            page_reading(
                page_read(bytes@, usize::BITS),
                bytes@.len(),
                aggregate_type@,
                partition_count,
            ),
            "state page token"@,
        ),
{
    let len: usize = bytes.len();
    if len == 0 {
        let mut after: Vec<String> = Vec::new();
        while after.len() < partition_count as usize
            invariant
                after@.len() <= partition_count,
                forall|i: int| 0 <= i < after@.len() ==> (#[trigger] after@[i])@.len() == 0,
            decreases partition_count - after@.len(),
        {
            after.push(String::new());
        }
        let token = StatePageToken {
            version: STATE_PAGE_TOKEN_VERSION,
            aggregate_type: aggregate_type.clone(),
            after_aggregate_ids: after,
        };
        proof {
            assert(text_views(after@) =~= first_page(aggregate_type@, partition_count).after) by {
                assert forall|i: int| 0 <= i < after@.len() implies (#[trigger] after@[i])@
                    == Seq::<char>::empty() by {
                    assert(after@[i]@ =~= Seq::<char>::empty());
                }
            }
        }
        return Ok(token);
    }
    check_state_page_token(decode_page_fields(bytes), len, aggregate_type, partition_count)
}

/// What was written down of a listing's place is read back as it was, by a listing of the
/// same aggregate type; any other listing, and any byte behind it, is refused.  (Where
/// nothing was written down, the listing begins.)
pub proof fn law_state_page_token_round_trip(
    b: Seq<u8>,
    t: PageFields,
    id: TypeView,
    partition_count: u16,
    rest: Seq<u8>,
)
    requires
        page_reads_back(b, page_tuple(t)),
        b.len() > 0,
    ensures
        t.version == STATE_PAGE_TOKEN_VERSION && t.id == id && t.after.len() == partition_count
            ==> page_reading(
            page_read(b, usize::BITS),
            b.len(),
            id,
            partition_count,
        ) == Reading::Reads(t),
        !(t.version == STATE_PAGE_TOKEN_VERSION && t.id == id && t.after.len() == partition_count)
            ==> page_reading(page_read(b, usize::BITS), b.len(), id, partition_count) is Refused,
        rest.len() > 0 ==> page_reading(
            page_read(b + rest, usize::BITS),
            (b + rest).len(),
            id,
            partition_count,
        ) == Reading::<PageFields>::Refused(has_trailing("state page token"@)),
{
    assert(page_read(b + Seq::<u8>::empty(), usize::BITS) == Some((page_tuple(t), b.len())));
    assert(b + Seq::<u8>::empty() =~= b);
    assert(page_read(b + rest, usize::BITS) == Some((page_tuple(t), b.len())));
}

/// The bytes of a delivery's name.
pub open spec fn written_delivery(t: DeliveryFields) -> Seq<u8> {
    delivery_bytes(t.version, t.id.space, t.id.kind, t.group, t.partition, t.epoch, t.delivery)
}

/// The fields of a delivery's name, one after the other.
pub open spec fn delivery_tuple(t: DeliveryFields) -> (
    u8,
    Seq<char>,
    Seq<char>,
    Seq<char>,
    u16,
    u64,
    u128,
) {
    (t.version, t.id.space, t.id.kind, t.group, t.partition, t.epoch, t.delivery)
}

/// Writes down the name of a delivery of a group.
pub fn encode_delivery_token(
    aggregate_type: &AggregateTypeId,
    group_name: &str,
    group_epoch: u64,
    partition_id: u16,
    delivery_id: u128,
) -> (r: Result<Vec<u8>, Status>)
    ensures
        ({
            let t = DeliveryFields {
                version: DELIVERY_TOKEN_VERSION,
                id: aggregate_type@,
                group: group_name@,
                partition: partition_id,
                epoch: group_epoch,
                delivery: delivery_id,
            };
            r matches Ok(b) && b@ == written_delivery(t) && delivery_reads_back(
                b@,
                delivery_tuple(t),
            )
        }),
{
    match encode_delivery_fields(
        DELIVERY_TOKEN_VERSION,
        aggregate_type,
        group_name,
        partition_id,
        group_epoch,
        delivery_id,
    ) {
        Ok(b) => Ok(b),
        Err(e) => Err(unwritable("delivery token", e.as_str())),
    }
}

/// What `len` bytes that are read like this come to as the name of a delivery of this
/// group.
pub open spec fn delivery_reading(
    read: Option<((u8, Seq<char>, Seq<char>, Seq<char>, u16, u64, u128), nat)>,
    len: nat,
    id: TypeView,
    group: Seq<char>,
) -> Reading<DeliveryFields> {
    match read {
        None => Reading::Unreadable,
        Some((f, taken)) => if taken != len {
            Reading::Refused(has_trailing("delivery token"@))
        } else if f.0 != DELIVERY_TOKEN_VERSION || (TypeView { space: f.1, kind: f.2 }) != id || f.3
            != group {
            Reading::Refused(
                says(
                    Code::InvalidArgument,
                    "delivery token 版本、聚合类型或消费者组不匹配"@,
                ),
            )
        } else {
            Reading::Reads(
                DeliveryFields {
                    version: f.0,
                    id,
                    group,
                    partition: f.4,
                    epoch: f.5,
                    delivery: f.6,
                },
            )
        },
    }
}

/// Accepts the name of a delivery of a group, once its bytes have been read.
pub fn check_delivery_token(
    read: Result<((u8, String, String, String, u16, u64, u128), usize), String>,
    len: usize,
    aggregate_type: &AggregateTypeId,
    group_name: &str,
) -> (r: Result<DeliveryToken, Status>)
    ensures
        answers(
            r,
            delivery_reading(
                match read {
                    Ok((f, n)) => Some(((f.0, f.1@, f.2@, f.3@, f.4, f.5, f.6), n as nat)),
                    Err(_) => None,
                },
                len as nat,
                aggregate_type@,
                group_name@,
            ),
            "delivery token"@,
        ),
{
    let (f, taken) = match read {
        Ok(x) => x,
        Err(e) => return Err(unreadable("delivery token", e.as_str())),
    };
    if taken != len {
        return Err(trailing("delivery token"));
    }
    let token = DeliveryToken {
        version: f.0,
        aggregate_type: AggregateTypeId { business_space: f.1, aggregate_type: f.2 },
        group_name: f.3,
        partition_id: f.4,
        group_epoch: f.5,
        delivery_id: f.6,
    };
    if token.version != DELIVERY_TOKEN_VERSION || !token.aggregate_type.same(aggregate_type)
        || !same_text(token.group_name.as_str(), group_name) {
        return Err(
            Status::of(Code::InvalidArgument, "delivery token 版本、聚合类型或消费者组不匹配"),
        );
    }
    Ok(token)
}

/// Reads the name of a delivery of a group.
pub fn decode_delivery_token(bytes: &Vec<u8>, aggregate_type: &AggregateTypeId, group_name: &str)
    -> (r: Result<DeliveryToken, Status>)
    ensures
        answers(
            r,
            delivery_reading(delivery_read(bytes@), bytes@.len(), aggregate_type@, group_name@),
            "delivery token"@,
        ),
{
    let len: usize = bytes.len();
    check_delivery_token(decode_delivery_fields(bytes), len, aggregate_type, group_name)
}

/// The name of a delivery is read back as it was, by the group it belongs to; any other
/// group, and any byte behind it, is refused.
pub proof fn law_delivery_token_round_trip(
    b: Seq<u8>,
    t: DeliveryFields,
    id: TypeView,
    group: Seq<char>,
    rest: Seq<u8>,
)
    requires
        delivery_reads_back(b, delivery_tuple(t)),
    ensures
        t.version == DELIVERY_TOKEN_VERSION && t.id == id && t.group == group ==> delivery_reading(
            delivery_read(b),
            b.len(),
            id,
            group,
        ) == Reading::Reads(t),
        !(t.version == DELIVERY_TOKEN_VERSION && t.id == id && t.group == group)
            ==> delivery_reading(delivery_read(b), b.len(), id, group) is Refused,
        rest.len() > 0 ==> delivery_reading(
            delivery_read(b + rest),
            (b + rest).len(),
            id,
            group,
        ) == Reading::<DeliveryFields>::Refused(has_trailing("delivery token"@)),
{
    assert(delivery_read(b + Seq::<u8>::empty()) == Some((delivery_tuple(t), b.len())));
    assert(b + Seq::<u8>::empty() =~= b);
    assert(delivery_read(b + rest) == Some((delivery_tuple(t), b.len())));
}


/// The place of a reader is taken from the bytes exactly where they hold nothing else,
/// and the place is of this kind, of this type and of this many partitions.  Bytes that
/// cannot be read are the server's fault, all else is the caller's.
pub proof fn law_cursor_is_taken_only_where_it_fits(
    read: Result<((u8, String, String, Vec<u64>), usize), String>,
    len: usize,
    aggregate_type: AggregateTypeId,
    partition_count: u16,
    r: Result<AggregateCursor, Status>,
)
    requires
        call_ensures(check_cursor, (read, len, &aggregate_type, partition_count), r),
    ensures
        r is Ok <==> (read matches Ok((f, n)) && n == len && f.0 == 1 && f.1@
            == aggregate_type.business_space@ && f.2@ == aggregate_type.aggregate_type@
            && f.3@.len() == partition_count),
        r matches Ok(c) ==> {
            &&& c.version == 1
            &&& c.aggregate_type.business_space@ == aggregate_type.business_space@
            &&& c.aggregate_type.aggregate_type@ == aggregate_type.aggregate_type@
            &&& c.next_positions@ == read->Ok_0.0.3@
        },
        r matches Err(s) ==> s@.code == (if read is Err {
            Code::Internal
        } else {
            Code::InvalidArgument
        }),
{
    assert(aggregate_type@ == (TypeView {
        space: aggregate_type.business_space@,
        kind: aggregate_type.aggregate_type@,
    }));
}

/// The place of a listing is taken in the same way.
pub proof fn law_page_token_is_taken_only_where_it_fits(
    read: Result<((u8, String, String, Vec<String>), usize), String>,
    len: usize,
    aggregate_type: AggregateTypeId,
    partition_count: u16,
    r: Result<StatePageToken, Status>,
)
    requires
        len > 0,
        call_ensures(check_state_page_token, (read, len, &aggregate_type, partition_count), r),
    ensures
        r is Ok <==> (read matches Ok((f, n)) && n == len && f.0 == 1 && f.1@
            == aggregate_type.business_space@ && f.2@ == aggregate_type.aggregate_type@
            && f.3@.len() == partition_count),
        r matches Ok(t) ==> {
            &&& t.version == 1
            &&& t.aggregate_type.business_space@ == aggregate_type.business_space@
            &&& t.aggregate_type.aggregate_type@ == aggregate_type.aggregate_type@
            &&& t.after_aggregate_ids@.len() == partition_count
            &&& forall|p: int|
                0 <= p < partition_count ==> (#[trigger] t.after_aggregate_ids@[p])@
                    == read->Ok_0.0.3@[p]@
        },
        r matches Err(s) ==> s@.code == (if read is Err {
            Code::Internal
        } else {
            Code::InvalidArgument
        }),
{
    if let Ok(t) = r {
        let now = text_views(t.after_aggregate_ids@);
        let was = text_views(read->Ok_0.0.3@);
        assert(now == was);
        assert forall|p: int| 0 <= p < partition_count implies (
        #[trigger] t.after_aggregate_ids@[p])@ == read->Ok_0.0.3@[p]@ by {
            assert(now[p] == was[p]);
        }
    }
}

/// A listing without a token begins at the beginning of every partition.
pub proof fn law_listing_without_a_token_begins_at_the_beginning(
    bytes: Vec<u8>,
    aggregate_type: AggregateTypeId,
    partition_count: u16,
    r: Result<StatePageToken, Status>,
)
    requires
        bytes@.len() == 0,
        call_ensures(decode_state_page_token, (&bytes, &aggregate_type, partition_count), r),
    ensures
        r matches Ok(t) && t.version == 1 && t.aggregate_type.business_space@
            == aggregate_type.business_space@ && t.aggregate_type.aggregate_type@
            == aggregate_type.aggregate_type@ && t.after_aggregate_ids@.len() == partition_count
            && forall|p: int|
            0 <= p < partition_count ==> (#[trigger] t.after_aggregate_ids@[p])@.len() == 0,
{
    if let Ok(t) = r {
        let now = text_views(t.after_aggregate_ids@);
        assert(now == first_page(aggregate_type@, partition_count).after);
        assert(now.len() == partition_count);
        assert forall|p: int| 0 <= p < partition_count implies (
        #[trigger] t.after_aggregate_ids@[p])@.len() == 0 by {
            assert(now[p].len() == 0);
        }
    }
}

/// The name of a delivery is taken only where it is of this kind, of this type and of
/// this group.
pub proof fn law_delivery_token_is_taken_only_where_it_fits(
    read: Result<((u8, String, String, String, u16, u64, u128), usize), String>,
    len: usize,
    aggregate_type: AggregateTypeId,
    group_name: &str,
    r: Result<DeliveryToken, Status>,
)
    requires
        call_ensures(check_delivery_token, (read, len, &aggregate_type, group_name), r),
    ensures
        r is Ok <==> (read matches Ok((f, n)) && n == len && f.0 == 1 && f.1@
            == aggregate_type.business_space@ && f.2@ == aggregate_type.aggregate_type@ && f.3@
            == group_name@),
        r matches Ok(t) ==> {
            let f = read->Ok_0.0;
            &&& t.version == 1
            &&& t.aggregate_type.business_space@ == aggregate_type.business_space@
            &&& t.aggregate_type.aggregate_type@ == aggregate_type.aggregate_type@
            &&& t.group_name@ == group_name@
            &&& t.partition_id == f.4 && t.group_epoch == f.5 && t.delivery_id == f.6
        },
        r matches Err(s) ==> s@.code == (if read is Err {
            Code::Internal
        } else {
            Code::InvalidArgument
        }),
{
}

/// What a reader is given of its place takes it back there: it is read as the same place.
pub proof fn law_given_cursor_is_read_back(
    cursor: AggregateCursor,
    bytes: Vec<u8>,
    partition_count: u16,
    r: Result<AggregateCursor, Status>,
)
    requires
        cursor.version == 1,
        cursor.next_positions@.len() == partition_count,
        call_ensures(encode_cursor, (&cursor,), Ok::<Vec<u8>, Status>(bytes)),
        call_ensures(decode_cursor, (&bytes, &cursor.aggregate_type, partition_count), r),
    ensures
        r matches Ok(c) && c.version == 1 && c.aggregate_type.business_space@
            == cursor.aggregate_type.business_space@ && c.aggregate_type.aggregate_type@
            == cursor.aggregate_type.aggregate_type@ && c.next_positions@
            == cursor.next_positions@,
{
    law_cursor_round_trip(
        bytes@,
        cursor@,
        cursor.aggregate_type@,
        partition_count,
        Seq::empty(),
    );
}

/// The name of a delivery that a consumer is given names that delivery: its partition, its
/// epoch and its number are read back from it.
pub proof fn law_given_delivery_name_is_read_back(
    aggregate_type: AggregateTypeId,
    group_name: &str,
    group_epoch: u64,
    partition_id: u16,
    delivery_id: u128,
    bytes: Vec<u8>,
    r: Result<DeliveryToken, Status>,
)
    requires
        call_ensures(
            encode_delivery_token,
            (&aggregate_type, group_name, group_epoch, partition_id, delivery_id),
            Ok::<Vec<u8>, Status>(bytes),
        ),
        call_ensures(decode_delivery_token, (&bytes, &aggregate_type, group_name), r),
    ensures
        r matches Ok(t) && t.partition_id == partition_id && t.group_epoch == group_epoch
            && t.delivery_id == delivery_id,
{
    let t = DeliveryFields {
        version: DELIVERY_TOKEN_VERSION,
        id: aggregate_type@,
        group: group_name@,
        partition: partition_id,
        epoch: group_epoch,
        delivery: delivery_id,
    };
    law_delivery_token_round_trip(bytes@, t, aggregate_type@, group_name@, Seq::empty());
}


/// What a listing is given of its place takes it on from there: it is read as the same
/// place.
pub proof fn law_given_page_token_is_read_back(
    token: StatePageToken,
    bytes: Vec<u8>,
    partition_count: u16,
    r: Result<StatePageToken, Status>,
    p: int,
)
    requires
        token.version == 1,
        token.after_aggregate_ids@.len() == partition_count,
        call_ensures(encode_state_page_token, (&token,), Ok::<Vec<u8>, Status>(bytes)),
        call_ensures(decode_state_page_token, (&bytes, &token.aggregate_type, partition_count), r),
        0 <= p < partition_count,
    ensures
        r matches Ok(t) && t.version == 1 && t.aggregate_type.business_space@
            == token.aggregate_type.business_space@ && t.aggregate_type.aggregate_type@
            == token.aggregate_type.aggregate_type@ && t.after_aggregate_ids@.len()
            == partition_count && t.after_aggregate_ids@[p]@ == token.after_aggregate_ids@[p]@,
{
    law_state_page_token_round_trip(
        bytes@,
        token@,
        token.aggregate_type@,
        partition_count,
        Seq::empty(),
    );
    let t = r->Ok_0;
    assert(text_views(t.after_aggregate_ids@) == text_views(token.after_aggregate_ids@));
    assert(text_views(t.after_aggregate_ids@).len() == t.after_aggregate_ids@.len());
    assert(text_views(t.after_aggregate_ids@)[p] == t.after_aggregate_ids@[p]@);
    assert(text_views(token.after_aggregate_ids@)[p] == token.after_aggregate_ids@[p]@);
}

} // verus!
