//! The delivery lifecycle: which transitions a delivery may take, and the
//! records that each operation adds to or changes in the delivery collection.
//!
//! An order counts as active while any delivery record of it, whoever took it,
//! is InProgress or Stored: taking an order is refused then, and the store,
//! continue, complete, fail and lose operations act on the first such record.
use vstd::prelude::*;
use vstd::string::*;
use crate::models::{Delivery, DeliveryStatus, Order};
use crate::text::{decimal_of, decimal_string};

verus! {

/// The identity on whose behalf deliveries are taken.
pub const CURRENT_USER: u32 = 1;

/// The identifier that a check found to be zero.
#[derive(Debug, Clone, Copy, PartialEq, Eq, Structural)]
pub enum IdField {
    OrderNumber,
    LocationId,
}

/// Why a lifecycle operation was refused.
#[derive(Debug, Clone, Copy, PartialEq, Eq, Structural)]
pub enum DeliveryError {
    /// No order has the number that was to be taken.
    UnknownOrder(u32),
    /// No order has the requested number.
    OrderNotFound,
    /// The order has no InProgress or Stored delivery.
    DeliveryNotFound,
    /// The order already has an InProgress or Stored delivery.
    AlreadyActive,
    /// Only an InProgress delivery can be stored.
    NotInProgress,
    /// Only a Stored delivery can be continued.
    NotStored,
    /// A required identifier is zero.
    ZeroId(IdField),
    /// A list of order numbers holds a zero.
    ZeroInList,
    /// A comment is longer than `MAX_COMMENT_CHARS` characters.
    CommentTooLong,
}

/// The three classes of refusal.
#[derive(Debug, Clone, Copy, PartialEq, Eq, Structural)]
pub enum ErrorKind {
    Validation,
    NotFound,
    Conflict,
}

impl DeliveryError {
    pub open spec fn kind_of(self) -> ErrorKind {
        match self {
            DeliveryError::UnknownOrder(_) | DeliveryError::OrderNotFound
            | DeliveryError::DeliveryNotFound => ErrorKind::NotFound,
            DeliveryError::AlreadyActive | DeliveryError::NotInProgress | DeliveryError::NotStored => {
                ErrorKind::Conflict
            },
            DeliveryError::ZeroId(_) | DeliveryError::ZeroInList | DeliveryError::CommentTooLong => {
                ErrorKind::Validation
            },
        }
    }

    pub fn kind(&self) -> (r: ErrorKind)
        ensures
            r == self.kind_of(),
    {
        match self {
            DeliveryError::UnknownOrder(_) | DeliveryError::OrderNotFound
            | DeliveryError::DeliveryNotFound => ErrorKind::NotFound,
            DeliveryError::AlreadyActive | DeliveryError::NotInProgress | DeliveryError::NotStored => {
                ErrorKind::Conflict
            },
            DeliveryError::ZeroId(_) | DeliveryError::ZeroInList | DeliveryError::CommentTooLong => {
                ErrorKind::Validation
            },
        }
    }
}

pub open spec fn order_known(orders: Seq<Order>, n: u32) -> bool {
    exists|i: int| 0 <= i < orders.len() && #[trigger] orders[i].number == n
}

pub open spec fn is_first_order(orders: Seq<Order>, n: u32, i: int) -> bool {
    &&& 0 <= i < orders.len()
    &&& orders[i].number == n
    &&& forall|j: int| 0 <= j < i ==> #[trigger] orders[j].number != n
}

/// The first order with number `n`.
pub open spec fn first_order(orders: Seq<Order>, n: u32) -> Order {
    orders[choose|i: int| is_first_order(orders, n, i)]
}

pub open spec fn active_for(d: Delivery, n: u32) -> bool {
    d.order_number == n && d.status.is_active()
}

/// Some delivery record of order `n` is InProgress or Stored.
pub open spec fn has_active(ds: Seq<Delivery>, n: u32) -> bool {
    exists|i: int| 0 <= i < ds.len() && #[trigger] active_for(ds[i], n)
}

pub open spec fn is_first_active(ds: Seq<Delivery>, n: u32, i: int) -> bool {
    &&& 0 <= i < ds.len()
    &&& active_for(ds[i], n)
    &&& forall|j: int| 0 <= j < i ==> !#[trigger] active_for(ds[j], n)
}

/// Position of the first InProgress or Stored record of order `n`.
pub open spec fn first_active(ds: Seq<Delivery>, n: u32) -> int {
    choose|i: int| is_first_active(ds, n, i)
}

/// Some delivery record, in any state, belongs to order `n`.
pub open spec fn has_delivery(ds: Seq<Delivery>, n: u32) -> bool {
    exists|i: int| 0 <= i < ds.len() && #[trigger] ds[i].order_number == n
}

/// For each order and user, at most one record is InProgress or Stored.
pub open spec fn single_active(ds: Seq<Delivery>) -> bool {
    forall|i: int, j: int|
        0 <= i < ds.len() && 0 <= j < ds.len() && (#[trigger] ds[i]).status.is_active()
            && (#[trigger] ds[j]).status.is_active() && ds[i].order_number == ds[j].order_number
            && ds[i].user_id == ds[j].user_id ==> i == j
}

/// The record that taking order `n` at time `now` creates.
pub open spec fn fresh_delivery(n: u32, now: String) -> Delivery {
    Delivery {
        id: n,
        order_number: n,
        status: DeliveryStatus::InProgress,
        location_id: None,
        started_at: Some(now),
        ended_at: None,
        comment: None,
        user_id: Some(CURRENT_USER),
    }
}

/// A comment given to a transition replaces the old one; none keeps it.
pub open spec fn replace_comment(old: Option<String>, new: Option<String>) -> Option<String> {
    match new {
        Some(c) => Some(c),
        None => old,
    }
}

pub open spec fn stored(d: Delivery, location_id: u32, comment: Option<String>) -> Delivery {
    Delivery {
        status: DeliveryStatus::STORED,
        location_id: Some(location_id),
        comment: replace_comment(d.comment, comment),
        ..d
    }
}

pub open spec fn continued(d: Delivery, comment: Option<String>) -> Delivery {
    Delivery {
        status: DeliveryStatus::InProgress,
        location_id: None,
        comment: replace_comment(d.comment, comment),
        ..d
    }
}

pub open spec fn completed(d: Delivery, client_id: u32, now: String) -> Delivery {
    Delivery {
        status: DeliveryStatus::COMPLETE,
        ended_at: Some(now),
        location_id: Some(client_id),
        ..d
    }
}

pub open spec fn failed(d: Delivery, destination_id: u32, comment: Option<String>, now: String) -> Delivery {
    Delivery {
        status: DeliveryStatus::FAILED,
        ended_at: Some(now),
        location_id: Some(destination_id),
        comment: replace_comment(d.comment, comment),
        ..d
    }
}

pub open spec fn lost(d: Delivery, comment: Option<String>, now: String) -> Delivery {
    Delivery {
        status: DeliveryStatus::LOST,
        ended_at: Some(now),
        comment: replace_comment(d.comment, comment),
        ..d
    }
}

/// Taking order `n`: the order must exist and have no active delivery.
pub open spec fn take_spec(orders: Seq<Order>, ds: Seq<Delivery>, n: u32, now: String) -> Result<
    Seq<Delivery>,
    DeliveryError,
> {
    if !order_known(orders, n) {
        Err(DeliveryError::UnknownOrder(n))
    } else if has_active(ds, n) {
        Err(DeliveryError::AlreadyActive)
    } else {
        Ok(ds.push(fresh_delivery(n, now)))
    }
}

/// Storing the active delivery of order `n` at a location.
pub open spec fn store_spec(
    ds: Seq<Delivery>,
    n: u32,
    location_id: u32,
    comment: Option<String>,
) -> Result<Seq<Delivery>, DeliveryError> {
    if !has_active(ds, n) {
        Err(DeliveryError::DeliveryNotFound)
    } else if ds[first_active(ds, n)].status != DeliveryStatus::InProgress {
        Err(DeliveryError::NotInProgress)
    } else {
        let i = first_active(ds, n);
        Ok(ds.update(i, stored(ds[i], location_id, comment)))
    }
}

/// Resuming the stored delivery of order `n`.
pub open spec fn continue_spec(ds: Seq<Delivery>, n: u32, comment: Option<String>) -> Result<
    Seq<Delivery>,
    DeliveryError,
> {
    if !has_active(ds, n) {
        Err(DeliveryError::DeliveryNotFound)
    } else if ds[first_active(ds, n)].status != DeliveryStatus::STORED {
        Err(DeliveryError::NotStored)
    } else {
        let i = first_active(ds, n);
        Ok(ds.update(i, continued(ds[i], comment)))
    }
}

/// Completing a known order: its active delivery, or else a new one, becomes
/// Complete at the order's client location.
pub open spec fn complete_known(orders: Seq<Order>, ds: Seq<Delivery>, n: u32, now: String) -> Seq<
    Delivery,
> {
    let client = first_order(orders, n).client_id;
    if has_active(ds, n) {
        let i = first_active(ds, n);
        ds.update(i, completed(ds[i], client, now))
    } else {
        ds.push(completed(fresh_delivery(n, now), client, now))
    }
}

pub open spec fn complete_spec(orders: Seq<Order>, ds: Seq<Delivery>, n: u32, now: String) -> Result<
    Seq<Delivery>,
    DeliveryError,
> {
    if !order_known(orders, n) {
        Err(DeliveryError::OrderNotFound)
    } else {
        Ok(complete_known(orders, ds, n, now))
    }
}

/// Failing the active delivery of order `n`: it ends at the destination.
pub open spec fn fail_spec(
    orders: Seq<Order>,
    ds: Seq<Delivery>,
    n: u32,
    comment: Option<String>,
    now: String,
) -> Result<Seq<Delivery>, DeliveryError> {
    if !order_known(orders, n) {
        Err(DeliveryError::OrderNotFound)
    } else if !has_active(ds, n) {
        Err(DeliveryError::DeliveryNotFound)
    } else {
        let i = first_active(ds, n);
        Ok(ds.update(i, failed(ds[i], first_order(orders, n).destination_id, comment, now)))
    }
}

/// Losing the active delivery of order `n`: its location is left as it was.
pub open spec fn lose_spec(ds: Seq<Delivery>, n: u32, comment: Option<String>, now: String) -> Result<
    Seq<Delivery>,
    DeliveryError,
> {
    if !has_active(ds, n) {
        Err(DeliveryError::DeliveryNotFound)
    } else {
        let i = first_active(ds, n);
        Ok(ds.update(i, lost(ds[i], comment, now)))
    }
}

/// What an operation did, measured against what it should have done:
/// on success the new collection and the message, on refusal the error and
/// the collection untouched.
pub open spec fn outcome(
    r: Result<String, DeliveryError>,
    message: Seq<char>,
    before: Seq<Delivery>,
    after: Seq<Delivery>,
    expected: Result<Seq<Delivery>, DeliveryError>,
) -> bool {
    match expected {
        Ok(s) => r is Ok && r->Ok_0@ == message && after == s,
        Err(e) => r == Err::<String, DeliveryError>(e) && after == before,
    }
}

pub open spec fn taken_message(n: u32) -> Seq<char> {
    "order "@ + decimal_of(n as nat) + " taken"@
}

proof fn lemma_first_active_exists(ds: Seq<Delivery>, n: u32)
    requires
        has_active(ds, n),
    ensures
        is_first_active(ds, n, first_active(ds, n)),
    decreases ds.len(),
{
    let prefix = ds.drop_last();
    if has_active(prefix, n) {
        lemma_first_active_exists(prefix, n);
        let i = first_active(prefix, n);
        assert(prefix[i] == ds[i]);
        assert forall|j: int| 0 <= j < i implies !#[trigger] active_for(ds[j], n) by {
            assert(prefix[j] == ds[j]);
        }
        assert(is_first_active(ds, n, i));
    } else {
        let w = choose|i: int| 0 <= i < ds.len() && #[trigger] active_for(ds[i], n);
        assert forall|j: int| 0 <= j < ds.len() - 1 implies !#[trigger] active_for(ds[j], n) by {
            assert(prefix[j] == ds[j]);
            if active_for(ds[j], n) {
                assert(active_for(prefix[j], n));
            }
        }
        if w < ds.len() - 1 {
            assert(prefix[w] == ds[w]);
            assert(active_for(prefix[w], n));
        }
        assert(is_first_active(ds, n, ds.len() - 1));
    }
}

proof fn lemma_first_active_is(ds: Seq<Delivery>, n: u32, i: int)
    requires
        is_first_active(ds, n, i),
    ensures
        first_active(ds, n) == i,
{
    let k = first_active(ds, n);
    assert(is_first_active(ds, n, k));
    if k < i {
        assert(active_for(ds[k], n));
    }
    if i < k {
        assert(active_for(ds[i], n));
    }
}

proof fn lemma_first_order_is(orders: Seq<Order>, n: u32, i: int)
    requires
        is_first_order(orders, n, i),
    ensures
        first_order(orders, n) == orders[i],
{
    let k = choose|k: int| is_first_order(orders, n, k);
    assert(is_first_order(orders, n, k));
    if k < i {
        assert(orders[k].number == n);
    }
    if i < k {
        assert(orders[i].number == n);
    }
}

/// Position of the first order with number `n`.
fn find_order(orders: &Vec<Order>, n: u32) -> (r: Option<usize>)
    ensures
        match r {
            Some(i) => is_first_order(orders@, n, i as int) && first_order(orders@, n)
                == orders@[i as int],
            None => !order_known(orders@, n),
        },
{
    let mut i: usize = 0;
    while i < orders.len()
        invariant
            i <= orders@.len(),
            forall|j: int| 0 <= j < i ==> #[trigger] orders@[j].number != n,
        decreases orders@.len() - i,
    {
        if orders[i].number == n {
            proof {
                lemma_first_order_is(orders@, n, i as int);
            }
            return Some(i);
        }
        i = i + 1;
    }
    None
}

/// Position of the first InProgress or Stored record of order `n`.
fn find_active(ds: &Vec<Delivery>, n: u32) -> (r: Option<usize>)
    ensures
        match r {
            Some(i) => is_first_active(ds@, n, i as int) && first_active(ds@, n) == i,
            None => !has_active(ds@, n),
        },
{
    let mut i: usize = 0;
    while i < ds.len()
        invariant
            i <= ds@.len(),
            forall|j: int| 0 <= j < i ==> !#[trigger] active_for(ds@[j], n),
        decreases ds@.len() - i,
    {
        let st = ds[i].status;
        if ds[i].order_number == n && (st == DeliveryStatus::InProgress || st
            == DeliveryStatus::STORED) {
            proof {
                lemma_first_active_is(ds@, n, i as int);
            }
            return Some(i);
        }
        i = i + 1;
    }
    None
}

/// Whether order `n` has an InProgress or Stored delivery.
pub fn has_active_or_stored(deliveries: &Vec<Delivery>, order_number: u32) -> (r: bool)
    ensures
        r == has_active(deliveries@, order_number),
{
    find_active(deliveries, order_number).is_some()
}

/// Whether order `n` has any delivery record at all.
pub(crate) fn has_any_delivery(ds: &Vec<Delivery>, n: u32) -> (r: bool)
    ensures
        r == has_delivery(ds@, n),
{
    let mut i: usize = 0;
    while i < ds.len()
        invariant
            i <= ds@.len(),
            forall|j: int| 0 <= j < i ==> #[trigger] ds@[j].order_number != n,
        decreases ds@.len() - i,
    {
        if ds[i].order_number == n {
            return true;
        }
        i = i + 1;
    }
    false
}

/// A new InProgress record of order `n` for the current user, started at `now`.
pub fn make_new_delivery(order_number: u32, now: String) -> (r: Delivery)
    ensures
        r == fresh_delivery(order_number, now),
{
    Delivery {
        id: order_number,
        order_number,
        status: DeliveryStatus::InProgress,
        location_id: None,
        started_at: Some(now),
        ended_at: None,
        comment: None,
        user_id: Some(CURRENT_USER),
    }
}

fn text(s: &str) -> (r: String)
    ensures
        r@ == s@,
{
    String::from_str(s)
}

proof fn lemma_take_keeps_single_active(orders: Seq<Order>, ds: Seq<Delivery>, n: u32, now: String)
    requires
        single_active(ds),
        take_spec(orders, ds, n, now) is Ok,
    ensures
        single_active(take_spec(orders, ds, n, now)->Ok_0),
{
    let s = ds.push(fresh_delivery(n, now));
    assert forall|i: int, j: int|
        0 <= i < s.len() && 0 <= j < s.len() && (#[trigger] s[i]).status.is_active()
            && (#[trigger] s[j]).status.is_active() && s[i].order_number == s[j].order_number
            && s[i].user_id == s[j].user_id implies i == j by {
        if i < ds.len() && j < ds.len() {
            assert(ds[i] == s[i] && ds[j] == s[j]);
        } else if i < ds.len() {
            assert(active_for(ds[i], n));
        } else if j < ds.len() {
            assert(active_for(ds[j], n));
        }
    }
}

/// Replacing one record by another that is active only where the old one was,
/// for the same order and user, keeps at most one active record per order and user.
proof fn lemma_update_keeps_single_active(ds: Seq<Delivery>, i: int, d: Delivery)
    requires
        single_active(ds),
        0 <= i < ds.len(),
        d.status.is_active() ==> ds[i].status.is_active(),
        d.order_number == ds[i].order_number,
        d.user_id == ds[i].user_id,
    ensures
        single_active(ds.update(i, d)),
{
    let s = ds.update(i, d);
    assert forall|a: int, b: int|
        0 <= a < s.len() && 0 <= b < s.len() && (#[trigger] s[a]).status.is_active()
            && (#[trigger] s[b]).status.is_active() && s[a].order_number == s[b].order_number
            && s[a].user_id == s[b].user_id implies a == b by {
        assert(ds[a].status.is_active() && ds[b].status.is_active());
        assert(ds[a].order_number == ds[b].order_number && ds[a].user_id == ds[b].user_id);
    }
}

/// Takes order `order_number` at time `now`.
pub fn logic_take_order(
    orders: &Vec<Order>,
    deliveries: &mut Vec<Delivery>,
    order_number: u32,
    now: String,
) -> (r: Result<String, DeliveryError>)
    ensures
        outcome(
            r,
            taken_message(order_number),
            old(deliveries)@,
            final(deliveries)@,
            take_spec(orders@, old(deliveries)@, order_number, now),
        ),
        single_active(old(deliveries)@) ==> single_active(final(deliveries)@),
{
    if find_order(orders, order_number).is_none() {
        return Err(DeliveryError::UnknownOrder(order_number));
    }
    if has_active_or_stored(deliveries, order_number) {
        return Err(DeliveryError::AlreadyActive);
    }
    proof {
        if single_active(deliveries@) {
            lemma_take_keeps_single_active(orders@, deliveries@, order_number, now);
        }
    }
    deliveries.push(make_new_delivery(order_number, now));
    let mut msg = text("order ");
    let num = decimal_string(order_number as u64);
    msg.append(num.as_str());
    msg.append(" taken");
    Ok(msg)
}

/// Stores the active delivery of `order_number` at `location_id`; a given
/// comment replaces the old one.
pub fn logic_store_delivery(
    deliveries: &mut Vec<Delivery>,
    order_number: u32,
    location_id: u32,
    comment: Option<String>,
) -> (r: Result<String, DeliveryError>)
    ensures
        outcome(
            r,
            "stored"@,
            old(deliveries)@,
            final(deliveries)@,
            store_spec(old(deliveries)@, order_number, location_id, comment),
        ),
        single_active(old(deliveries)@) ==> single_active(final(deliveries)@),
{
    let i = match find_active(deliveries, order_number) {
        Some(i) => i,
        None => {
            return Err(DeliveryError::DeliveryNotFound);
        },
    };
    if deliveries[i].status != DeliveryStatus::InProgress {
        return Err(DeliveryError::NotInProgress);
    }
    let ghost before = deliveries@;
    deliveries[i].status = DeliveryStatus::STORED;
    deliveries[i].location_id = Some(location_id);
    if let Some(c) = comment {
        deliveries[i].comment = Some(c);
    }
    proof {
        assert(deliveries@ =~= before.update(i as int, stored(before[i as int], location_id, comment)));
        if single_active(before) {
            lemma_update_keeps_single_active(before, i as int, stored(before[i as int], location_id, comment));
        }
    }
    Ok(text("stored"))
}

/// Resumes the stored delivery of `order_number`: it is InProgress again and
/// leaves its location; a given comment replaces the old one.
pub fn logic_continue_delivery(
    deliveries: &mut Vec<Delivery>,
    order_number: u32,
    comment: Option<String>,
) -> (r: Result<String, DeliveryError>)
    ensures
        outcome(
            r,
            "continued"@,
            old(deliveries)@,
            final(deliveries)@,
            continue_spec(old(deliveries)@, order_number, comment),
        ),
        single_active(old(deliveries)@) ==> single_active(final(deliveries)@),
{
    let i = match find_active(deliveries, order_number) {
        Some(i) => i,
        None => {
            return Err(DeliveryError::DeliveryNotFound);
        },
    };
    if deliveries[i].status != DeliveryStatus::STORED {
        return Err(DeliveryError::NotStored);
    }
    let ghost before = deliveries@;
    deliveries[i].status = DeliveryStatus::InProgress;
    deliveries[i].location_id = None;
    if let Some(c) = comment {
        deliveries[i].comment = Some(c);
    }
    proof {
        assert(deliveries@ =~= before.update(i as int, continued(before[i as int], comment)));
        if single_active(before) {
            lemma_update_keeps_single_active(before, i as int, continued(before[i as int], comment));
        }
    }
    Ok(text("continued"))
}

proof fn lemma_complete_keeps_single_active(
    orders: Seq<Order>,
    ds: Seq<Delivery>,
    n: u32,
    now: String,
)
    requires
        single_active(ds),
    ensures
        single_active(complete_known(orders, ds, n, now)),
{
    let client = first_order(orders, n).client_id;
    if has_active(ds, n) {
        lemma_first_active_exists(ds, n);
        let i = first_active(ds, n);
        lemma_update_keeps_single_active(ds, i, completed(ds[i], client, now));
    } else {
        let s = ds.push(completed(fresh_delivery(n, now), client, now));
        assert forall|a: int, b: int|
            0 <= a < s.len() && 0 <= b < s.len() && (#[trigger] s[a]).status.is_active()
                && (#[trigger] s[b]).status.is_active() && s[a].order_number == s[b].order_number
                && s[a].user_id == s[b].user_id implies a == b by {
            assert(a < ds.len() && b < ds.len());
            assert(ds[a] == s[a] && ds[b] == s[b]);
        }
    }
}

/// How many records of order `n` are InProgress or Stored.
pub open spec fn active_count(ds: Seq<Delivery>, n: u32) -> nat {
    ds.filter(|d: Delivery| active_for(d, n)).len()
}

proof fn lemma_filter_len_update<A>(s: Seq<A>, i: int, x: A, p: spec_fn(A) -> bool)
    requires
        0 <= i < s.len(),
    ensures
        s.update(i, x).filter(p).len() + (if p(s[i]) { 1int } else { 0int }) == s.filter(p).len() + (
        if p(x) { 1int } else { 0int }),
    decreases s.len(),
{
    reveal(Seq::filter);
    let t = s.update(i, x);
    if i == s.len() - 1 {
        assert(t.drop_last() =~= s.drop_last());
    } else {
        lemma_filter_len_update(s.drop_last(), i, x, p);
        assert(t.drop_last() =~= s.drop_last().update(i, x));
        assert(t.last() == s.last());
    }
}

proof fn lemma_no_active_count(ds: Seq<Delivery>, n: u32)
    requires
        !has_active(ds, n),
    ensures
        active_count(ds, n) == 0,
    decreases ds.len(),
{
    reveal(Seq::filter);
    if ds.len() > 0 {
        assert(!active_for(ds[ds.len() - 1], n));
        assert forall|i: int| 0 <= i < ds.drop_last().len() implies !#[trigger] active_for(ds.drop_last()[i], n) by {
            assert(ds.drop_last()[i] == ds[i]);
        }
        lemma_no_active_count(ds.drop_last(), n);
    }
}

/// Completing a known order retires one of its active records if it has
/// any, and leaves none active otherwise: the record made for a completion
/// never stays active.
pub proof fn lemma_complete_retires_one_active(orders: Seq<Order>, ds: Seq<Delivery>, n: u32, now: String)
    ensures
        active_count(complete_known(orders, ds, n, now), n) == if has_active(ds, n) {
            (active_count(ds, n) - 1) as nat
        } else {
            0nat
        },
        has_active(ds, n) ==> active_count(ds, n) > 0,
{
    reveal(Seq::filter);
    let pred = |d: Delivery| active_for(d, n);
    let client = first_order(orders, n).client_id;
    if has_active(ds, n) {
        lemma_first_active_exists(ds, n);
        let i = first_active(ds, n);
        lemma_filter_len_update(ds, i, completed(ds[i], client, now), pred);
    } else {
        lemma_no_active_count(ds, n);
        let d = completed(fresh_delivery(n, now), client, now);
        assert(ds.push(d).drop_last() =~= ds);
    }
}

/// Completes order `order_number` at time `now`, given that the order is
/// known: its active delivery, or else a new record, becomes Complete at the
/// order's client location.
pub fn logic_make_delivery(
    orders: &Vec<Order>,
    deliveries: &mut Vec<Delivery>,
    order_number: u32,
    now: String,
) -> (r: Result<String, DeliveryError>)
    ensures
        outcome(
            r,
            "completed"@,
            old(deliveries)@,
            final(deliveries)@,
            complete_spec(orders@, old(deliveries)@, order_number, now),
        ),
        single_active(old(deliveries)@) ==> single_active(final(deliveries)@),
        r is Ok ==> active_count(final(deliveries)@, order_number) == if active_count(
            old(deliveries)@,
            order_number,
        ) > 0 {
            (active_count(old(deliveries)@, order_number) - 1) as nat
        } else {
            0nat
        },
{
    proof {
        lemma_complete_retires_one_active(orders@, deliveries@, order_number, now);
        if !has_active(deliveries@, order_number) {
            lemma_no_active_count(deliveries@, order_number);
        }
    }
    let k = match find_order(orders, order_number) {
        Some(k) => k,
        None => {
            return Err(DeliveryError::OrderNotFound);
        },
    };
    let client = orders[k].client_id;
    let ghost before = deliveries@;
    proof {
        if single_active(before) {
            lemma_complete_keeps_single_active(orders@, before, order_number, now);
        }
    }
    match find_active(deliveries, order_number) {
        Some(i) => {
            deliveries[i].status = DeliveryStatus::COMPLETE;
            deliveries[i].ended_at = Some(now);
            deliveries[i].location_id = Some(client);
            assert(deliveries@ =~= before.update(i as int, completed(before[i as int], client, now)));
        },
        None => {
            let mut d = make_new_delivery(order_number, now.clone());
            d.status = DeliveryStatus::COMPLETE;
            d.ended_at = Some(now);
            d.location_id = Some(client);
            deliveries.push(d);
            assert(deliveries@ =~= before.push(completed(fresh_delivery(order_number, now), client, now)));
        },
    }
    Ok(text("completed"))
}

/// Fails the active delivery of `order_number` at time `now`: it ends at the
/// order's destination; a given comment replaces the old one.
pub fn logic_fail_delivery(
    orders: &Vec<Order>,
    deliveries: &mut Vec<Delivery>,
    order_number: u32,
    comment: Option<String>,
    now: String,
) -> (r: Result<String, DeliveryError>)
    ensures
        outcome(
            r,
            "failed"@,
            old(deliveries)@,
            final(deliveries)@,
            fail_spec(orders@, old(deliveries)@, order_number, comment, now),
        ),
        single_active(old(deliveries)@) ==> single_active(final(deliveries)@),
{
    let k = match find_order(orders, order_number) {
        Some(k) => k,
        None => {
            return Err(DeliveryError::OrderNotFound);
        },
    };
    let destination = orders[k].destination_id;
    let i = match find_active(deliveries, order_number) {
        Some(i) => i,
        None => {
            return Err(DeliveryError::DeliveryNotFound);
        },
    };
    let ghost before = deliveries@;
    deliveries[i].status = DeliveryStatus::FAILED;
    deliveries[i].ended_at = Some(now);
    deliveries[i].location_id = Some(destination);
    if let Some(c) = comment {
        deliveries[i].comment = Some(c);
    }
    proof {
        let d = failed(before[i as int], destination, comment, now);
        assert(deliveries@ =~= before.update(i as int, d));
        if single_active(before) {
            lemma_update_keeps_single_active(before, i as int, d);
        }
    }
    Ok(text("failed"))
}

/// Loses the active delivery of `order_number` at time `now`; its location is
/// left as it was and a given comment replaces the old one.
pub fn logic_lose_delivery(
    deliveries: &mut Vec<Delivery>,
    order_number: u32,
    comment: Option<String>,
    now: String,
) -> (r: Result<String, DeliveryError>)
    ensures
        outcome(
            r,
            "lost"@,
            old(deliveries)@,
            final(deliveries)@,
            lose_spec(old(deliveries)@, order_number, comment, now),
        ),
        single_active(old(deliveries)@) ==> single_active(final(deliveries)@),
{
    let i = match find_active(deliveries, order_number) {
        Some(i) => i,
        None => {
            return Err(DeliveryError::DeliveryNotFound);
        },
    };
    let ghost before = deliveries@;
    deliveries[i].status = DeliveryStatus::LOST;
    deliveries[i].ended_at = Some(now);
    if let Some(c) = comment {
        deliveries[i].comment = Some(c);
    }
    proof {
        let d = lost(before[i as int], comment, now);
        assert(deliveries@ =~= before.update(i as int, d));
        if single_active(before) {
            lemma_update_keeps_single_active(before, i as int, d);
        }
    }
    Ok(text("lost"))
}

/// Accepting each number of `nums` in turn: a known order without an active
/// delivery is taken, every other number is passed over. Gives the new
/// collection and how many orders were taken.
pub open spec fn bulk_accept_spec(orders: Seq<Order>, ds: Seq<Delivery>, nums: Seq<u32>, now: String) -> (
    Seq<Delivery>,
    nat,
)
    decreases nums.len(),
{
    if nums.len() == 0 {
        (ds, 0)
    } else {
        let n = nums[0];
        if order_known(orders, n) && !has_active(ds, n) {
            let rest = bulk_accept_spec(orders, ds.push(fresh_delivery(n, now)), nums.drop_first(), now);
            (rest.0, rest.1 + 1)
        } else {
            bulk_accept_spec(orders, ds, nums.drop_first(), now)
        }
    }
}

/// Completing each known number of `nums` in turn; unknown numbers are passed
/// over. Gives the new collection and how many completions were made.
pub open spec fn bulk_complete_spec(
    orders: Seq<Order>,
    ds: Seq<Delivery>,
    nums: Seq<u32>,
    now: String,
) -> (Seq<Delivery>, nat)
    decreases nums.len(),
{
    if nums.len() == 0 {
        (ds, 0)
    } else {
        let n = nums[0];
        if order_known(orders, n) {
            let rest = bulk_complete_spec(orders, complete_known(orders, ds, n, now), nums.drop_first(), now);
            (rest.0, rest.1 + 1)
        } else {
            bulk_complete_spec(orders, ds, nums.drop_first(), now)
        }
    }
}

pub open spec fn accepted_message(k: nat) -> Seq<char> {
    "accepted "@ + decimal_of(k)
}

pub open spec fn completed_message(k: nat) -> Seq<char> {
    "completed "@ + decimal_of(k)
}

proof fn lemma_rest_step(nums: Seq<u32>, i: int)
    requires
        0 <= i < nums.len(),
    ensures
        nums.subrange(i, nums.len() as int)[0] == nums[i],
        nums.subrange(i, nums.len() as int).drop_first() =~= nums.subrange(i + 1, nums.len() as int),
{
}

/// Takes, at time `now`, each known order of `order_numbers` that has no active
/// delivery, in the order given; repeated and unknown numbers are passed over.
pub fn logic_bulk_accept(
    orders: &Vec<Order>,
    deliveries: &mut Vec<Delivery>,
    order_numbers: &Vec<u32>,
    now: String,
) -> (r: Result<String, DeliveryError>)
    ensures
        r is Ok,
        r->Ok_0@ == accepted_message(bulk_accept_spec(orders@, old(deliveries)@, order_numbers@, now).1),
        final(deliveries)@ == bulk_accept_spec(orders@, old(deliveries)@, order_numbers@, now).0,
        single_active(old(deliveries)@) ==> single_active(final(deliveries)@),
{
    let ghost total = bulk_accept_spec(orders@, deliveries@, order_numbers@, now);
    let ghost nums = order_numbers@;
    let mut created: usize = 0;
    let mut i: usize = 0;
    proof {
        assert(nums.subrange(0, nums.len() as int) =~= nums);
    }
    while i < order_numbers.len()
        invariant
            i <= nums.len(),
            nums == order_numbers@,
            created <= i,
            bulk_accept_spec(orders@, deliveries@, nums.subrange(i as int, nums.len() as int), now)
                == (total.0, (total.1 - created) as nat),
            total.1 >= created,
            single_active(old(deliveries)@) ==> single_active(deliveries@),
        decreases nums.len() - i,
    {
        let n = order_numbers[i];
        proof {
            lemma_rest_step(nums, i as int);
        }
        if find_order(orders, n).is_some() && !has_active_or_stored(deliveries, n) {
            proof {
                if single_active(deliveries@) {
                    lemma_take_keeps_single_active(orders@, deliveries@, n, now);
                }
            }
            deliveries.push(make_new_delivery(n, now.clone()));
            created = created + 1;
        }
        i = i + 1;
    }
    proof {
        assert(nums.subrange(i as int, nums.len() as int).len() == 0);
    }
    let mut msg = text("accepted ");
    let num = decimal_string(created as u64);
    msg.append(num.as_str());
    Ok(msg)
}

proof fn lemma_push_then_complete(orders: Seq<Order>, ds: Seq<Delivery>, n: u32, now: String)
    requires
        !has_delivery(ds, n),
    ensures
        complete_known(orders, ds.push(fresh_delivery(n, now)), n, now) == complete_known(orders, ds, n, now),
{
    let s = ds.push(fresh_delivery(n, now));
    let len = ds.len() as int;
    assert forall|j: int| 0 <= j < len implies !#[trigger] active_for(s[j], n) by {
        assert(s[j] == ds[j]);
        if active_for(ds[j], n) {
            assert(ds[j].order_number == n);
        }
    }
    assert(active_for(s[len], n));
    assert(is_first_active(s, n, len));
    lemma_first_active_is(s, n, len);
    if has_active(ds, n) {
        let w = choose|i: int| 0 <= i < ds.len() && #[trigger] active_for(ds[i], n);
        assert(ds[w].order_number == n);
    }
    let client = first_order(orders, n).client_id;
    assert(s.update(len, completed(s[len], client, now)) =~= ds.push(
        completed(fresh_delivery(n, now), client, now),
    ));
}

/// Completes, at time `now`, each known order of `order_numbers` in turn; an
/// order without any delivery record gets a new one first. Unknown numbers are
/// passed over, and a repeated number completes a further record.
pub fn logic_bulk_complete(
    orders: &Vec<Order>,
    deliveries: &mut Vec<Delivery>,
    order_numbers: &Vec<u32>,
    now: String,
) -> (r: Result<String, DeliveryError>)
    ensures
        r is Ok,
        r->Ok_0@ == completed_message(
            bulk_complete_spec(orders@, old(deliveries)@, order_numbers@, now).1,
        ),
        final(deliveries)@ == bulk_complete_spec(orders@, old(deliveries)@, order_numbers@, now).0,
        single_active(old(deliveries)@) ==> single_active(final(deliveries)@),
{
    let ghost total = bulk_complete_spec(orders@, deliveries@, order_numbers@, now);
    let ghost nums = order_numbers@;
    let mut completed_count: usize = 0;
    let mut i: usize = 0;
    proof {
        assert(nums.subrange(0, nums.len() as int) =~= nums);
    }
    while i < order_numbers.len()
        invariant
            i <= nums.len(),
            nums == order_numbers@,
            completed_count <= i,
            bulk_complete_spec(orders@, deliveries@, nums.subrange(i as int, nums.len() as int), now)
                == (total.0, (total.1 - completed_count) as nat),
            total.1 >= completed_count,
            single_active(old(deliveries)@) ==> single_active(deliveries@),
        decreases nums.len() - i,
    {
        let n = order_numbers[i];
        proof {
            lemma_rest_step(nums, i as int);
        }
        if find_order(orders, n).is_some() {
            if !has_any_delivery(deliveries, n) {
                proof {
                    lemma_push_then_complete(orders@, deliveries@, n, now);
                    if single_active(deliveries@) {
                        assert(!has_active(deliveries@, n)) by {
                            if has_active(deliveries@, n) {
                                let w = choose|j: int| 0 <= j < deliveries@.len() && #[trigger] active_for(deliveries@[j], n);
                                assert(deliveries@[w].order_number == n);
                            }
                        }
                        lemma_take_keeps_single_active(orders@, deliveries@, n, now);
                    }
                }
                deliveries.push(make_new_delivery(n, now.clone()));
            }
            match logic_make_delivery(orders, deliveries, n, now.clone()) {
                Ok(_) => {},
                Err(e) => {
                    return Err(e);
                },
            }
            completed_count = completed_count + 1;
        }
        i = i + 1;
    }
    proof {
        assert(nums.subrange(i as int, nums.len() as int).len() == 0);
    }
    let mut msg = text("completed ");
    let num = decimal_string(completed_count as u64);
    msg.append(num.as_str());
    Ok(msg)
}

proof fn lemma_accept_extends(orders: Seq<Order>, ds: Seq<Delivery>, nums: Seq<u32>, now: String)
    ensures
        ds.len() <= bulk_accept_spec(orders, ds, nums, now).0.len(),
        forall|i: int| 0 <= i < ds.len() ==> #[trigger] bulk_accept_spec(orders, ds, nums, now).0[i] == ds[i],
    decreases nums.len(),
{
    if nums.len() > 0 {
        let n = nums[0];
        if order_known(orders, n) && !has_active(ds, n) {
            let next = ds.push(fresh_delivery(n, now));
            lemma_accept_extends(orders, next, nums.drop_first(), now);
            assert forall|i: int| 0 <= i < ds.len() implies #[trigger] bulk_accept_spec(orders, ds, nums, now).0[i] == ds[i] by {
                assert(next[i] == ds[i]);
                assert(bulk_accept_spec(orders, next, nums.drop_first(), now).0[i] == next[i]);
            }
        } else {
            lemma_accept_extends(orders, ds, nums.drop_first(), now);
        }
    }
}

proof fn lemma_active_kept(orders: Seq<Order>, ds: Seq<Delivery>, nums: Seq<u32>, now: String, m: u32)
    requires
        has_active(ds, m),
    ensures
        has_active(bulk_accept_spec(orders, ds, nums, now).0, m),
{
    lemma_accept_extends(orders, ds, nums, now);
    let w = choose|i: int| 0 <= i < ds.len() && #[trigger] active_for(ds[i], m);
    assert(bulk_accept_spec(orders, ds, nums, now).0[w] == ds[w]);
    assert(active_for(bulk_accept_spec(orders, ds, nums, now).0[w], m));
}

proof fn lemma_accept_covers(orders: Seq<Order>, ds: Seq<Delivery>, nums: Seq<u32>, now: String)
    ensures
        forall|k: int|
            0 <= k < nums.len() && order_known(orders, #[trigger] nums[k]) ==> has_active(
                bulk_accept_spec(orders, ds, nums, now).0,
                nums[k],
            ),
    decreases nums.len(),
{
    if nums.len() > 0 {
        let n = nums[0];
        let rest = nums.drop_first();
        let next = if order_known(orders, n) && !has_active(ds, n) {
            ds.push(fresh_delivery(n, now))
        } else {
            ds
        };
        assert(bulk_accept_spec(orders, ds, nums, now).0 == bulk_accept_spec(orders, next, rest, now).0);
        lemma_accept_covers(orders, next, rest, now);
        assert forall|k: int|
            0 <= k < nums.len() && order_known(orders, #[trigger] nums[k]) implies has_active(
                bulk_accept_spec(orders, ds, nums, now).0,
                nums[k],
            ) by {
            if k == 0 {
                if !has_active(ds, n) {
                    assert(active_for(next[ds.len() as int], n));
                }
                else {
                    let w = choose|i: int| 0 <= i < ds.len() && #[trigger] active_for(ds[i], n);
                    assert(active_for(next[w], n));
                }
                lemma_active_kept(orders, next, rest, now, n);
            } else {
                assert(rest[k - 1] == nums[k]);
            }
        }
    }
}

proof fn lemma_accept_nothing_left(orders: Seq<Order>, ds: Seq<Delivery>, nums: Seq<u32>, now: String)
    requires
        forall|k: int| 0 <= k < nums.len() && order_known(orders, #[trigger] nums[k]) ==> has_active(ds, nums[k]),
    ensures
        bulk_accept_spec(orders, ds, nums, now) == (ds, 0nat),
    decreases nums.len(),
{
    if nums.len() > 0 {
        let rest = nums.drop_first();
        assert forall|k: int| 0 <= k < rest.len() && order_known(orders, #[trigger] rest[k]) implies has_active(ds, rest[k]) by {
            assert(rest[k] == nums[k + 1]);
        }
        lemma_accept_nothing_left(orders, ds, rest, now);
    }
}

/// Accepting the same numbers a second time takes nothing: after the first
/// call every known order among them has an active delivery, so the second
/// call leaves the collection as it is and reports zero.
pub proof fn lemma_bulk_accept_idempotent(
    orders: Seq<Order>,
    deliveries: Seq<Delivery>,
    nums: Seq<u32>,
    first_now: String,
    second_now: String,
)
    ensures
        ({
            let once = bulk_accept_spec(orders, deliveries, nums, first_now).0;
            bulk_accept_spec(orders, once, nums, second_now) == (once, 0nat)
        }),
{
    let once = bulk_accept_spec(orders, deliveries, nums, first_now).0;
    lemma_accept_covers(orders, deliveries, nums, first_now);
    lemma_accept_nothing_left(orders, once, nums, second_now);
}

/// The longest comment accepted, in characters.
pub const MAX_COMMENT_CHARS: usize = 500;

/// Refuses a zero identifier, naming the field it stands in.
pub fn validate_nonzero(field: IdField, value: u32) -> (r: Result<(), DeliveryError>)
    ensures
        r == (if value == 0 {
            Err(DeliveryError::ZeroId(field))
        } else {
            Ok(())
        }),
{
    if value == 0 {
        Err(DeliveryError::ZeroId(field))
    } else {
        Ok(())
    }
}

/// Refuses a comment longer than `MAX_COMMENT_CHARS` characters.
pub fn validate_comment(comment: &Option<String>) -> (r: Result<(), DeliveryError>)
    ensures
        r == (match comment {
            Some(c) => if c@.len() > MAX_COMMENT_CHARS {
                Err(DeliveryError::CommentTooLong)
            } else {
                Ok(())
            },
            None => Ok(()),
        }),
{
    if let Some(c) = comment {
        if c.as_str().unicode_len() > MAX_COMMENT_CHARS {
            return Err(DeliveryError::CommentTooLong);
        }
    }
    Ok(())
}

/// Refuses a list of order numbers that holds a zero.
pub fn validate_order_numbers(numbers: &Vec<u32>) -> (r: Result<(), DeliveryError>)
    ensures
        r == (if exists|k: int| 0 <= k < numbers@.len() && #[trigger] numbers@[k] == 0 {
            Err(DeliveryError::ZeroInList)
        } else {
            Ok(())
        }),
{
    let mut k: usize = 0;
    while k < numbers.len()
        invariant
            k <= numbers@.len(),
            forall|j: int| 0 <= j < k ==> #[trigger] numbers@[j] != 0,
        decreases numbers@.len() - k,
    {
        if numbers[k] == 0 {
            return Err(DeliveryError::ZeroInList);
        }
        k = k + 1;
    }
    Ok(())
}

impl DeliveryError {
    /// The text shown to the user for this refusal.
    pub open spec fn message_of(self) -> Seq<char> {
        match self {
            DeliveryError::UnknownOrder(n) => "order "@ + decimal_of(n as nat) + " not found"@,
            DeliveryError::OrderNotFound => "order not found"@,
            DeliveryError::DeliveryNotFound => "delivery not found"@,
            DeliveryError::AlreadyActive => "delivery already active or stored for this order"@,
            DeliveryError::NotInProgress => "can only store an in-progress delivery"@,
            DeliveryError::NotStored => "can only continue a stored delivery"@,
            DeliveryError::ZeroId(IdField::OrderNumber) => "order_number must be > 0"@,
            DeliveryError::ZeroId(IdField::LocationId) => "location_id must be > 0"@,
            DeliveryError::ZeroInList => "order_numbers contain invalid 0 value"@,
            DeliveryError::CommentTooLong => "comment too long (max 500 chars)"@,
        }
    }

    pub fn message(&self) -> (r: String)
        ensures
            r@ == self.message_of(),
    {
        match self {
            DeliveryError::UnknownOrder(n) => {
                let mut t = text("order ");
                let num = decimal_string(*n as u64);
                t.append(num.as_str());
                t.append(" not found");
                t
            },
            DeliveryError::OrderNotFound => text("order not found"),
            DeliveryError::DeliveryNotFound => text("delivery not found"),
            DeliveryError::AlreadyActive => text("delivery already active or stored for this order"),
            DeliveryError::NotInProgress => text("can only store an in-progress delivery"),
            DeliveryError::NotStored => text("can only continue a stored delivery"),
            DeliveryError::ZeroId(IdField::OrderNumber) => text("order_number must be > 0"),
            DeliveryError::ZeroId(IdField::LocationId) => text("location_id must be > 0"),
            DeliveryError::ZeroInList => text("order_numbers contain invalid 0 value"),
            DeliveryError::CommentTooLong => text("comment too long (max 500 chars)"),
        }
    }
}

} // verus!
