//! Read-side queries over orders: filtering, projection to list items,
//! sorting, searching, pagination and the regional dashboard.
use vstd::prelude::*;
use crate::lifecycle::{has_any_delivery, has_delivery, CURRENT_USER};
use crate::models::{Delivery, DeliveryStatus, District, FloatBits, Location, Order, Region};
use crate::text::{
    alphabetic, ascii_lower, contains_str, decimal_of, decimal_string, is_alphabetic, is_substring,
    lemma_lex_le_reflexive, lemma_lex_le_total, lemma_lex_le_transitive, lex_le, lower_of, text_le,
    text_eq, to_ascii_lowercase, to_lowercase, trim, trim_of,
};
use vstd::string::*;

verus! {

/// A conjunction of optional criteria; an absent criterion is not applied.
#[derive(Debug, Clone)]
pub struct OrdersFilter {
    pub district_id: Option<u32>,
    pub client_id: Option<u32>,
    pub destination_id: Option<u32>,
    pub delivery_category_id: Option<u32>,
    /// Filter by the delivery records of an order, whoever took them
    pub delivery_status: Option<DeliveryStatusFilter>,
    /// Completion filter: true => some delivery is Complete; false => none is
    pub completion: Option<bool>,
}

impl Default for OrdersFilter {
    fn default() -> (r: OrdersFilter)
        ensures
            r.district_id is None,
            r.client_id is None,
            r.destination_id is None,
            r.delivery_category_id is None,
            r.delivery_status is None,
            r.completion is None,
    {
        OrdersFilter {
            district_id: None,
            client_id: None,
            destination_id: None,
            delivery_category_id: None,
            delivery_status: None,
            completion: None,
        }
    }
}

#[derive(Debug, Clone, Copy, PartialEq, Eq, Structural)]
pub enum DeliveryStatusFilter {
    InProgress,
    Stored,
    Complete,
    Failed,
    Lost,
    /// Any existing delivery regardless of status
    Any,
    /// No delivery at all
    NoDelivery,
}

#[derive(Debug, Clone, Copy, PartialEq, Eq, Structural)]
pub enum SortKey {
    Number,
    Name,
    Weight,
    MaxLikes,
}

#[derive(Debug, Clone, Copy, PartialEq, Eq, Structural)]
pub enum SortDir {
    Asc,
    Desc,
}

#[derive(Debug)]
pub struct OrderListItem {
    pub number: u32,
    pub name: String,
    pub client_id: u32,
    pub destination_id: u32,
    pub delivery_category_id: u32,
    pub max_likes: FloatBits,
    pub weight: FloatBits,
    pub delivery_status: Option<DeliveryStatus>,
    pub is_completed: bool,
}

impl Clone for OrderListItem {
    fn clone(&self) -> (r: OrderListItem)
        ensures
            r == *self,
    {
        OrderListItem {
            number: self.number,
            name: self.name.clone(),
            client_id: self.client_id,
            destination_id: self.destination_id,
            delivery_category_id: self.delivery_category_id,
            max_likes: self.max_likes,
            weight: self.weight,
            delivery_status: self.delivery_status,
            is_completed: self.is_completed,
        }
    }
}

#[derive(Debug, Clone)]
pub struct QueryResult<T> {
    pub total: usize,
    pub items: Vec<T>,
}

/// A record of order `n` that belongs to the current user; a record without a
/// user counts as the current user's.
pub open spec fn mine(d: Delivery, n: u32) -> bool {
    d.order_number == n && (d.user_id is None || d.user_id == Some(CURRENT_USER))
}

/// Among the first `upto` records, one of the current user's for order `n` has status `s`.
pub open spec fn mine_with_status(ds: Seq<Delivery>, n: u32, s: DeliveryStatus, upto: int) -> bool {
    exists|j: int| 0 <= j < upto && mine(#[trigger] ds[j], n) && ds[j].status == s
}

/// Status of the last InProgress or Stored record of the current user for order `n`.
pub open spec fn last_active_status(ds: Seq<Delivery>, n: u32) -> Option<DeliveryStatus>
    decreases ds.len(),
{
    if ds.len() == 0 {
        None
    } else if mine(ds.last(), n) && ds.last().status.is_active() {
        Some(ds.last().status)
    } else {
        last_active_status(ds.drop_last(), n)
    }
}

/// The current user's view of order `n`: an active status shows first, then
/// Complete, Failed and Lost in that order; the flag says whether a Complete
/// record exists.
pub open spec fn user_status(ds: Seq<Delivery>, n: u32) -> (Option<DeliveryStatus>, bool) {
    let len = ds.len() as int;
    let has_complete = mine_with_status(ds, n, DeliveryStatus::COMPLETE, len);
    if last_active_status(ds, n) is Some {
        (last_active_status(ds, n), has_complete)
    } else if has_complete {
        (Some(DeliveryStatus::COMPLETE), true)
    } else if mine_with_status(ds, n, DeliveryStatus::FAILED, len) {
        (Some(DeliveryStatus::FAILED), false)
    } else if mine_with_status(ds, n, DeliveryStatus::LOST, len) {
        (Some(DeliveryStatus::LOST), false)
    } else {
        (None, false)
    }
}

/// The current user's delivery status of order `order_number` and whether it
/// has a Complete record; see `user_status`.
pub fn current_user_status_and_completed(order_number: u32, deliveries: &Vec<Delivery>) -> (r: (
    Option<DeliveryStatus>,
    bool,
))
    ensures
        r == user_status(deliveries@, order_number),
{
    let ghost ds = deliveries@;
    let mut has_complete = false;
    let mut has_failed = false;
    let mut has_lost = false;
    let mut active_status: Option<DeliveryStatus> = None;
    let mut i: usize = 0;
    while i < deliveries.len()
        invariant
            i <= ds.len(),
            ds == deliveries@,
            active_status == last_active_status(ds.subrange(0, i as int), order_number),
            has_complete == mine_with_status(ds, order_number, DeliveryStatus::COMPLETE, i as int),
            has_failed == mine_with_status(ds, order_number, DeliveryStatus::FAILED, i as int),
            has_lost == mine_with_status(ds, order_number, DeliveryStatus::LOST, i as int),
        decreases ds.len() - i,
    {
        let d = &deliveries[i];
        proof {
            assert(ds.subrange(0, i + 1).drop_last() =~= ds.subrange(0, i as int));
            assert(ds.subrange(0, i + 1).last() == ds[i as int]);
        }
        let is_mine = d.order_number == order_number && match d.user_id {
            Some(uid) => uid == CURRENT_USER,
            None => true,
        };
        if is_mine {
            match d.status {
                DeliveryStatus::InProgress | DeliveryStatus::STORED => {
                    active_status = Some(d.status);
                },
                DeliveryStatus::COMPLETE => {
                    has_complete = true;
                },
                DeliveryStatus::FAILED => {
                    has_failed = true;
                },
                DeliveryStatus::LOST => {
                    has_lost = true;
                },
            }
        }
        proof {
            assert forall|s: DeliveryStatus| mine_with_status(ds, order_number, s, i + 1) == (
            mine_with_status(ds, order_number, s, i as int) || (mine(ds[i as int], order_number)
                && ds[i as int].status == s)) by {
                if mine_with_status(ds, order_number, s, i + 1) {
                    let j = choose|j: int| 0 <= j < i + 1 && mine(#[trigger] ds[j], order_number) && ds[j].status == s;
                    if j < i {
                        assert(mine_with_status(ds, order_number, s, i as int));
                    }
                }
            }
        }
        i = i + 1;
    }
    proof {
        assert(ds.subrange(0, ds.len() as int) =~= ds);
    }
    if let Some(s) = active_status {
        return (Some(s), has_complete);
    }
    if has_complete {
        return (Some(DeliveryStatus::COMPLETE), true);
    }
    if has_failed {
        return (Some(DeliveryStatus::FAILED), false);
    }
    if has_lost {
        return (Some(DeliveryStatus::LOST), false);
    }
    (None, false)
}

/// The list item of an order: its fields, with the current user's status.
pub open spec fn list_item(o: Order, ds: Seq<Delivery>) -> OrderListItem {
    OrderListItem {
        number: o.number,
        name: o.name,
        client_id: o.client_id,
        destination_id: o.destination_id,
        delivery_category_id: o.delivery_category_id,
        max_likes: o.max_likes,
        weight: o.weight,
        delivery_status: user_status(ds, o.number).0,
        is_completed: user_status(ds, o.number).1,
    }
}

/// One list item per order, in the same order.
pub fn map_orders_to_list_items(orders: &Vec<Order>, deliveries: &Vec<Delivery>) -> (r: Vec<
    OrderListItem,
>)
    ensures
        r@.len() == orders@.len(),
        forall|k: int| 0 <= k < orders@.len() ==> #[trigger] r@[k] == list_item(orders@[k], deliveries@),
{
    let mut out: Vec<OrderListItem> = Vec::new();
    let mut i: usize = 0;
    while i < orders.len()
        invariant
            i <= orders@.len(),
            out@.len() == i,
            forall|k: int| 0 <= k < i ==> #[trigger] out@[k] == list_item(orders@[k], deliveries@),
        decreases orders@.len() - i,
    {
        let o = &orders[i];
        let (status, completed) = current_user_status_and_completed(o.number, deliveries);
        out.push(
            OrderListItem {
                number: o.number,
                name: o.name.clone(),
                client_id: o.client_id,
                destination_id: o.destination_id,
                delivery_category_id: o.delivery_category_id,
                max_likes: o.max_likes,
                weight: o.weight,
                delivery_status: status,
                is_completed: completed,
            },
        );
        i = i + 1;
    }
    out
}

/// Location `id` lies in district `district`.
pub open spec fn in_district(locs: Seq<Location>, id: u32, district: u32) -> bool {
    exists|j: int| 0 <= j < locs.len() && #[trigger] locs[j].id == id && locs[j].district_id == district
}

/// Some record of order `n`, whoever took it, has status `s`.
pub open spec fn has_status(ds: Seq<Delivery>, n: u32, s: DeliveryStatus) -> bool {
    exists|j: int| 0 <= j < ds.len() && #[trigger] ds[j].order_number == n && ds[j].status == s
}

pub open spec fn status_matches(sf: DeliveryStatusFilter, ds: Seq<Delivery>, n: u32) -> bool {
    match sf {
        DeliveryStatusFilter::InProgress => has_status(ds, n, DeliveryStatus::InProgress),
        DeliveryStatusFilter::Stored => has_status(ds, n, DeliveryStatus::STORED),
        DeliveryStatusFilter::Complete => has_status(ds, n, DeliveryStatus::COMPLETE),
        DeliveryStatusFilter::Failed => has_status(ds, n, DeliveryStatus::FAILED),
        DeliveryStatusFilter::Lost => has_status(ds, n, DeliveryStatus::LOST),
        DeliveryStatusFilter::Any => has_delivery(ds, n),
        DeliveryStatusFilter::NoDelivery => !has_delivery(ds, n),
    }
}

/// Criterion `k` of the filter, for `0 <= k < 6`: district (client or
/// destination end), client, destination, category, delivery status,
/// completion. An absent criterion holds of every order.
pub open spec fn criterion(f: OrdersFilter, k: int, o: Order, ds: Seq<Delivery>, locs: Seq<Location>) -> bool {
    if k == 0 {
        match f.district_id {
            Some(d) => in_district(locs, o.client_id, d) || in_district(locs, o.destination_id, d),
            None => true,
        }
    } else if k == 1 {
        match f.client_id {
            Some(c) => o.client_id == c,
            None => true,
        }
    } else if k == 2 {
        match f.destination_id {
            Some(c) => o.destination_id == c,
            None => true,
        }
    } else if k == 3 {
        match f.delivery_category_id {
            Some(c) => o.delivery_category_id == c,
            None => true,
        }
    } else if k == 4 {
        match f.delivery_status {
            Some(sf) => status_matches(sf, ds, o.number),
            None => true,
        }
    } else if k == 5 {
        match f.completion {
            Some(b) => b == has_status(ds, o.number, DeliveryStatus::COMPLETE),
            None => true,
        }
    } else {
        true
    }
}

/// All six criteria hold of order `o`.
pub open spec fn passes(f: OrdersFilter, o: Order, ds: Seq<Delivery>, locs: Seq<Location>) -> bool {
    &&& criterion(f, 0, o, ds, locs)
    &&& criterion(f, 1, o, ds, locs)
    &&& criterion(f, 2, o, ds, locs)
    &&& criterion(f, 3, o, ds, locs)
    &&& criterion(f, 4, o, ds, locs)
    &&& criterion(f, 5, o, ds, locs)
}

fn location_in_district(locs: &Vec<Location>, id: u32, district: u32) -> (r: bool)
    ensures
        r == in_district(locs@, id, district),
{
    let mut j: usize = 0;
    while j < locs.len()
        invariant
            j <= locs@.len(),
            forall|k: int| 0 <= k < j ==> !(#[trigger] locs@[k].id == id && locs@[k].district_id == district),
        decreases locs@.len() - j,
    {
        if locs[j].id == id && locs[j].district_id == district {
            return true;
        }
        j = j + 1;
    }
    false
}

fn has_status_exec(ds: &Vec<Delivery>, n: u32, s: DeliveryStatus) -> (r: bool)
    ensures
        r == has_status(ds@, n, s),
{
    let mut j: usize = 0;
    while j < ds.len()
        invariant
            j <= ds@.len(),
            forall|k: int| 0 <= k < j ==> !(#[trigger] ds@[k].order_number == n && ds@[k].status == s),
        decreases ds@.len() - j,
    {
        if ds[j].order_number == n && ds[j].status == s {
            return true;
        }
        j = j + 1;
    }
    false
}

fn passes_exec(f: &OrdersFilter, o: &Order, ds: &Vec<Delivery>, locs: &Vec<Location>) -> (r: bool)
    ensures
        r == passes(*f, *o, ds@, locs@),
{
    if let Some(d) = f.district_id {
        if !location_in_district(locs, o.client_id, d) && !location_in_district(locs, o.destination_id, d) {
            return false;
        }
    }
    if let Some(c) = f.client_id {
        if o.client_id != c {
            return false;
        }
    }
    if let Some(c) = f.destination_id {
        if o.destination_id != c {
            return false;
        }
    }
    if let Some(c) = f.delivery_category_id {
        if o.delivery_category_id != c {
            return false;
        }
    }
    if let Some(sf) = f.delivery_status {
        let ok = match sf {
            DeliveryStatusFilter::Any => has_any_delivery(ds, o.number),
            DeliveryStatusFilter::NoDelivery => !has_any_delivery(ds, o.number),
            DeliveryStatusFilter::InProgress => has_status_exec(ds, o.number, DeliveryStatus::InProgress),
            DeliveryStatusFilter::Stored => has_status_exec(ds, o.number, DeliveryStatus::STORED),
            DeliveryStatusFilter::Complete => has_status_exec(ds, o.number, DeliveryStatus::COMPLETE),
            DeliveryStatusFilter::Failed => has_status_exec(ds, o.number, DeliveryStatus::FAILED),
            DeliveryStatusFilter::Lost => has_status_exec(ds, o.number, DeliveryStatus::LOST),
        };
        if !ok {
            return false;
        }
    }
    if let Some(b) = f.completion {
        if b != has_status_exec(ds, o.number, DeliveryStatus::COMPLETE) {
            return false;
        }
    }
    true
}

/// The orders that pass every criterion of `f`, in their original order.
pub fn filter_orders<'a>(
    orders: &'a Vec<Order>,
    deliveries: &'a Vec<Delivery>,
    locations: &'a Vec<Location>,
    f: &OrdersFilter,
) -> (r: Vec<&'a Order>)
    ensures
        r@.len() == orders@.filter(|o: Order| passes(*f, o, deliveries@, locations@)).len(),
        forall|k: int|
            0 <= k < r@.len() ==> *(#[trigger] r@[k]) == orders@.filter(
                |o: Order| passes(*f, o, deliveries@, locations@),
            )[k],
{
    let ghost pred = |o: Order| passes(*f, o, deliveries@, locations@);
    let mut out: Vec<&'a Order> = Vec::new();
    let mut i: usize = 0;
    while i < orders.len()
        invariant
            i <= orders@.len(),
            pred == (|o: Order| passes(*f, o, deliveries@, locations@)),
            out@.len() == orders@.subrange(0, i as int).filter(pred).len(),
            forall|k: int|
                0 <= k < out@.len() ==> *(#[trigger] out@[k]) == orders@.subrange(0, i as int).filter(pred)[k],
        decreases orders@.len() - i,
    {
        let o = &orders[i];
        let keep = passes_exec(f, o, deliveries, locations);
        proof {
            reveal(Seq::filter);
            let next = orders@.subrange(0, i + 1);
            assert(next.drop_last() =~= orders@.subrange(0, i as int));
            assert(next.last() == orders@[i as int]);
        }
        if keep {
            out.push(o);
        }
        i = i + 1;
    }
    proof {
        assert(orders@.subrange(0, orders@.len() as int) =~= orders@);
    }
    out
}

proof fn lemma_filter_twice<A>(s: Seq<A>, p: spec_fn(A) -> bool, q: spec_fn(A) -> bool)
    ensures
        s.filter(p).filter(q) == s.filter(|x: A| p(x) && q(x)),
    decreases s.len(),
{
    reveal(Seq::filter);
    if s.len() > 0 {
        lemma_filter_twice(s.drop_last(), p, q);
        let fp = s.filter(p);
        if p(s.last()) {
            assert(fp.drop_last() =~= s.drop_last().filter(p));
            assert(fp.last() == s.last());
        }
    }
}

/// The filter that keeps criterion `k` of `f` and drops the others.
pub open spec fn only_criterion(f: OrdersFilter, k: int) -> OrdersFilter {
    OrdersFilter {
        district_id: if k == 0 { f.district_id } else { None },
        client_id: if k == 1 { f.client_id } else { None },
        destination_id: if k == 2 { f.destination_id } else { None },
        delivery_category_id: if k == 3 { f.delivery_category_id } else { None },
        delivery_status: if k == 4 { f.delivery_status } else { None },
        completion: if k == 5 { f.completion } else { None },
    }
}

proof fn lemma_only_criterion(f: OrdersFilter, k: int, deliveries: Seq<Delivery>, locations: Seq<Location>)
    requires
        0 <= k < 6,
    ensures
        (|o: Order| passes(only_criterion(f, k), o, deliveries, locations)) =~= (|o: Order|
            criterion(f, k, o, deliveries, locations)),
{
}

/// Filtering by one-criterion filters in turn: running `filter_orders` with the
/// filter that keeps only criterion `a` of `f` and then with the one that keeps
/// only criterion `b` leaves the same orders, in the same order, as the other
/// way round.
pub proof fn lemma_one_criterion_filters_commute(
    orders: Seq<Order>,
    f: OrdersFilter,
    deliveries: Seq<Delivery>,
    locations: Seq<Location>,
    a: int,
    b: int,
)
    requires
        0 <= a < 6,
        0 <= b < 6,
    ensures
        orders.filter(|o: Order| passes(only_criterion(f, a), o, deliveries, locations)).filter(
            |o: Order| passes(only_criterion(f, b), o, deliveries, locations),
        ) == orders.filter(|o: Order| passes(only_criterion(f, b), o, deliveries, locations)).filter(
            |o: Order| passes(only_criterion(f, a), o, deliveries, locations),
        ),
{
    lemma_only_criterion(f, a, deliveries, locations);
    lemma_only_criterion(f, b, deliveries, locations);
    lemma_filter_criteria_commute(orders, f, deliveries, locations, a, b);
}

/// Running `filter_orders` with the six one-criterion filters of `f` in turn
/// keeps what running it once with `f` keeps.
pub proof fn lemma_one_criterion_filters_in_turn(
    orders: Seq<Order>,
    f: OrdersFilter,
    deliveries: Seq<Delivery>,
    locations: Seq<Location>,
)
    ensures
        orders.filter(|o: Order| passes(f, o, deliveries, locations)) == orders.filter(
            |o: Order| passes(only_criterion(f, 0), o, deliveries, locations),
        ).filter(|o: Order| passes(only_criterion(f, 1), o, deliveries, locations)).filter(
            |o: Order| passes(only_criterion(f, 2), o, deliveries, locations),
        ).filter(|o: Order| passes(only_criterion(f, 3), o, deliveries, locations)).filter(
            |o: Order| passes(only_criterion(f, 4), o, deliveries, locations),
        ).filter(|o: Order| passes(only_criterion(f, 5), o, deliveries, locations)),
{
    lemma_only_criterion(f, 0, deliveries, locations);
    lemma_only_criterion(f, 1, deliveries, locations);
    lemma_only_criterion(f, 2, deliveries, locations);
    lemma_only_criterion(f, 3, deliveries, locations);
    lemma_only_criterion(f, 4, deliveries, locations);
    lemma_only_criterion(f, 5, deliveries, locations);
    lemma_filter_is_criteria_in_turn(orders, f, deliveries, locations);
}

/// The criteria of a filter may be applied one after another in any order:
/// applying criterion `a` and then `b` keeps the same orders, in the same
/// order, as applying `b` and then `a`.
pub proof fn lemma_filter_criteria_commute(
    orders: Seq<Order>,
    f: OrdersFilter,
    deliveries: Seq<Delivery>,
    locations: Seq<Location>,
    a: int,
    b: int,
)
    ensures
        orders.filter(|o: Order| criterion(f, a, o, deliveries, locations)).filter(
            |o: Order| criterion(f, b, o, deliveries, locations),
        ) == orders.filter(|o: Order| criterion(f, b, o, deliveries, locations)).filter(
            |o: Order| criterion(f, a, o, deliveries, locations),
        ),
{
    let pa = |o: Order| criterion(f, a, o, deliveries, locations);
    let pb = |o: Order| criterion(f, b, o, deliveries, locations);
    lemma_filter_twice(orders, pa, pb);
    lemma_filter_twice(orders, pb, pa);
    assert((|x: Order| pa(x) && pb(x)) =~= (|x: Order| pb(x) && pa(x)));
}

/// Filtering by the whole filter keeps what applying its six criteria one
/// after another keeps.
pub proof fn lemma_filter_is_criteria_in_turn(
    orders: Seq<Order>,
    f: OrdersFilter,
    deliveries: Seq<Delivery>,
    locations: Seq<Location>,
)
    ensures
        orders.filter(|o: Order| passes(f, o, deliveries, locations)) == orders.filter(
            |o: Order| criterion(f, 0, o, deliveries, locations),
        ).filter(|o: Order| criterion(f, 1, o, deliveries, locations)).filter(
            |o: Order| criterion(f, 2, o, deliveries, locations),
        ).filter(|o: Order| criterion(f, 3, o, deliveries, locations)).filter(
            |o: Order| criterion(f, 4, o, deliveries, locations),
        ).filter(|o: Order| criterion(f, 5, o, deliveries, locations)),
{
    let c0 = |o: Order| criterion(f, 0, o, deliveries, locations);
    let c1 = |o: Order| criterion(f, 1, o, deliveries, locations);
    let c2 = |o: Order| criterion(f, 2, o, deliveries, locations);
    let c3 = |o: Order| criterion(f, 3, o, deliveries, locations);
    let c4 = |o: Order| criterion(f, 4, o, deliveries, locations);
    let c5 = |o: Order| criterion(f, 5, o, deliveries, locations);
    let p1 = |o: Order| c0(o) && c1(o);
    let p2 = |o: Order| p1(o) && c2(o);
    let p3 = |o: Order| p2(o) && c3(o);
    let p4 = |o: Order| p3(o) && c4(o);
    let p5 = |o: Order| p4(o) && c5(o);
    lemma_filter_twice(orders, c0, c1);
    lemma_filter_twice(orders, p1, c2);
    lemma_filter_twice(orders, p2, c3);
    lemma_filter_twice(orders, p3, c4);
    lemma_filter_twice(orders, p4, c5);
    assert(p5 =~= (|o: Order| passes(f, o, deliveries, locations)));
}

/// Item `a` may stand before item `b` when sorting by `key`: numbers and
/// measures by value, names by their lower-cased text.
pub open spec fn key_le(key: SortKey, a: OrderListItem, b: OrderListItem) -> bool {
    match key {
        SortKey::Number => a.number <= b.number,
        SortKey::Name => lex_le(lower_of(a.name@), lower_of(b.name@)),
        SortKey::Weight => a.weight.ordinal() <= b.weight.ordinal(),
        SortKey::MaxLikes => a.max_likes.ordinal() <= b.max_likes.ordinal(),
    }
}

/// `key_le` is a total preorder.
pub proof fn lemma_key_le_total_preorder(key: SortKey, a: OrderListItem, b: OrderListItem, c: OrderListItem)
    ensures
        key_le(key, a, a),
        key_le(key, a, b) || key_le(key, b, a),
        key_le(key, a, b) && key_le(key, b, c) ==> key_le(key, a, c),
{
    if key == SortKey::Name {
        lemma_lex_le_reflexive(lower_of(a.name@));
        lemma_lex_le_total(lower_of(a.name@), lower_of(b.name@));
        if key_le(key, a, b) && key_le(key, b, c) {
            lemma_lex_le_transitive(lower_of(a.name@), lower_of(b.name@), lower_of(c.name@));
        }
    }
}

/// Whether `a` may stand before `b` when sorting by `key`; names are compared
/// by `text_le` once lower-cased.
pub fn key_le_exec(key: SortKey, a: &OrderListItem, b: &OrderListItem) -> (r: bool)
    ensures
        r == key_le(key, *a, *b),
{
    match key {
        SortKey::Number => a.number <= b.number,
        SortKey::Name => {
            let la = to_lowercase(a.name.as_str());
            let lb = to_lowercase(b.name.as_str());
            text_le(la.as_str(), lb.as_str())
        },
        SortKey::Weight => a.weight.ordinal_value() <= b.weight.ordinal_value(),
        SortKey::MaxLikes => a.max_likes.ordinal_value() <= b.max_likes.ordinal_value(),
    }
}

/// In the ascending order, the item at position `i` of `s` comes before the
/// item at position `j`: its key is smaller, or the keys tie and `i < j`.
pub open spec fn precedes(key: SortKey, s: Seq<OrderListItem>, i: int, j: int) -> bool {
    key_le(key, s[i], s[j]) && (key_le(key, s[j], s[i]) ==> i < j)
}

/// Position `j` occurs among the first `upto` entries of `perm`.
pub open spec fn lists(perm: Seq<int>, upto: int, j: int) -> bool {
    exists|k: int| 0 <= k < upto && #[trigger] perm[k] == j
}

/// `perm` lists every position of `s` in ascending order of key, ties in
/// their original order.
pub open spec fn ascending_positions(key: SortKey, s: Seq<OrderListItem>, perm: Seq<int>) -> bool {
    &&& perm.len() == s.len()
    &&& forall|k: int| 0 <= k < perm.len() ==> 0 <= #[trigger] perm[k] < s.len()
    &&& forall|j: int| 0 <= j < s.len() ==> #[trigger] lists(perm, perm.len() as int, j)
    &&& forall|k: int, l: int| 0 <= k < l < perm.len() ==> precedes(key, s, #[trigger] perm[k], #[trigger] perm[l])
}

/// The items of `s` laid out along `perm`, or along `perm` backwards for a
/// descending sort.
pub open spec fn arranged(s: Seq<OrderListItem>, perm: Seq<int>, dir: SortDir) -> Seq<OrderListItem> {
    match dir {
        SortDir::Asc => Seq::new(perm.len(), |k: int| s[perm[k]]),
        SortDir::Desc => Seq::new(perm.len(), |k: int| s[perm[perm.len() - 1 - k]]),
    }
}

/// Sorts stably by `key` in ascending order; a descending sort is the
/// ascending one reversed, so tied items come out in reverse of their
/// original order.
pub fn sort_orders(items: &mut Vec<OrderListItem>, key: SortKey, dir: SortDir)
    ensures
        exists|perm: Seq<int>|
            ascending_positions(key, old(items)@, perm) && final(items)@ == #[trigger] arranged(
                old(items)@,
                perm,
                dir,
            ),
        final(items)@.to_multiset() == old(items)@.to_multiset(),
{
    let ghost s0 = items@;
    let n = items.len();
    let ghost mut perm: Seq<int> = Seq::new(n as nat, |k: int| k);
    let mut i: usize = 0;
    while i < n
        invariant
            n == s0.len(),
            i <= n,
            items@.len() == n,
            perm.len() == n,
            forall|k: int| 0 <= k < n ==> #[trigger] items@[k] == s0[perm[k]],
            forall|k: int| i <= k < n ==> #[trigger] perm[k] == k,
            forall|k: int| 0 <= k < i ==> 0 <= #[trigger] perm[k] < i,
            forall|j: int| 0 <= j < i ==> #[trigger] lists(perm, i as int, j),
            items@.to_multiset() == s0.to_multiset(),
            forall|k: int, l: int| 0 <= k < l < i ==> precedes(key, s0, #[trigger] perm[k], #[trigger] perm[l]),
        decreases n - i,
    {
        let ghost before = items@;
        let ghost old_perm = perm;
        let x = items.remove(i);
        assert(x == s0[i as int]);
        let mut p: usize = i;
        while p > 0 && !key_le_exec(key, &items[p - 1], &x)
            invariant
                p <= i,
                i < n,
                before.len() == n,
                items@ == before.remove(i as int),
                forall|q: int| p <= q < i ==> !key_le(key, #[trigger] items@[q], x),
            decreases p,
        {
            p = p - 1;
        }
        items.insert(p, x);
        proof {
            broadcast use vstd::seq_lib::group_to_multiset_ensures;
            let m = before.to_multiset();
            assert(before.remove(i as int).to_multiset() == m.remove(x));
            assert(items@.to_multiset() == m.remove(x).insert(x));
            assert(m.count(x) > 0);
            assert(m.remove(x).insert(x) =~= m);
            let rp = old_perm.remove(i as int);
            perm = rp.insert(p as int, i as int);
            assert forall|k: int| 0 <= k < n implies #[trigger] items@[k] == s0[perm[k]] by {
                if k < p {
                    assert(items@[k] == before[k]);
                    assert(perm[k] == old_perm[k]);
                } else if k > p && k <= i {
                    assert(items@[k] == before[k - 1]);
                    assert(perm[k] == old_perm[k - 1]);
                } else if k > i {
                    assert(items@[k] == before[k]);
                    assert(perm[k] == old_perm[k]);
                }
            }
            assert forall|k: int| i + 1 <= k < n implies #[trigger] perm[k] == k by {
                assert(perm[k] == old_perm[k]);
            }
            assert forall|j: int| 0 <= j < i + 1 implies #[trigger] lists(perm, i + 1, j) by {
                if j == i {
                    assert(perm[p as int] == j);
                } else {
                    assert(lists(old_perm, i as int, j));
                    let k0 = choose|k: int| 0 <= k < i && #[trigger] old_perm[k] == j;
                    if k0 < p {
                        assert(perm[k0] == j);
                    } else {
                        assert(perm[k0 + 1] == j);
                    }
                }
            }
            assert forall|k: int| 0 <= k < i + 1 implies 0 <= #[trigger] perm[k] < i + 1 by {
                if k < p {
                    assert(perm[k] == old_perm[k]);
                } else if k > p {
                    assert(perm[k] == old_perm[k - 1]);
                }
            }
            assert forall|k: int, l: int| 0 <= k < l < i + 1 implies precedes(
                key,
                s0,
                #[trigger] perm[k],
                #[trigger] perm[l],
            ) by {
                let ok = if k < p { k } else { k - 1 };
                let ol = if l < p { l } else { l - 1 };
                if k != p && l != p {
                    assert(perm[k] == old_perm[ok]);
                    assert(perm[l] == old_perm[ol]);
                    assert(precedes(key, s0, old_perm[ok], old_perm[ol]));
                } else if l == p {
                    assert(perm[k] == old_perm[k]);
                    assert(perm[l] == i);
                    let pk = old_perm[k];
                    let last = old_perm[p - 1];
                    assert(items@[p - 1] == before[p - 1]);
                    assert(before[p - 1] == s0[last]);
                    assert(key_le(key, s0[last], x));
                    if k < p - 1 {
                        assert(precedes(key, s0, pk, last));
                        lemma_key_le_total_preorder(key, s0[pk], s0[last], x);
                    }
                    assert(key_le(key, s0[pk], s0[i as int]));
                } else {
                    assert(perm[k] == i);
                    assert(perm[l] == old_perm[l - 1]);
                    let pl = old_perm[l - 1];
                    assert(before.remove(i as int)[l - 1] == before[l - 1]);
                    assert(items@[l] == before[l - 1]);
                    assert(!key_le(key, before[l - 1], x));
                    assert(before[l - 1] == s0[pl]);
                    lemma_key_le_total_preorder(key, s0[pl], x, x);
                }
            }
        }
        i = i + 1;
    }
    proof {
        assert(ascending_positions(key, s0, perm));
        assert(items@ =~= arranged(s0, perm, SortDir::Asc));
    }
    if dir == SortDir::Desc {
        let mut out: Vec<OrderListItem> = Vec::new();
        let ghost asc = items@;
        while items.len() > 0
            invariant
                items@.len() + out@.len() == n,
                asc.len() == n,
                items@ == asc.subrange(0, items@.len() as int),
                forall|k: int| 0 <= k < out@.len() ==> #[trigger] out@[k] == asc[n - 1 - k],
            decreases items@.len(),
        {
            let ghost len = items@.len();
            match items.pop() {
                Some(v) => {
                    out.push(v);
                },
                None => {},
            }
            assert(items@ =~= asc.subrange(0, items@.len() as int));
        }
        *items = out;
        assert(items@ =~= arranged(s0, perm, SortDir::Desc));
        proof {
            assert(items@ =~= asc.reverse());
            asc.lemma_reverse_to_multiset();
        }
    }
}

proof fn lemma_ascending_agree(key: SortKey, s: Seq<OrderListItem>, p: Seq<int>, q: Seq<int>, k: int)
    requires
        ascending_positions(key, s, p),
        ascending_positions(key, s, q),
        0 <= k <= s.len(),
    ensures
        forall|m: int| 0 <= m < k ==> p[m] == q[m],
    decreases k,
{
    if k > 0 {
        lemma_ascending_agree(key, s, p, q, k - 1);
        let m = k - 1;
        if p[m] != q[m] {
            let a = p[m];
            let b = q[m];
            assert(lists(q, q.len() as int, a));
            assert(lists(p, p.len() as int, b));
            let j = choose|j: int| 0 <= j < q.len() && #[trigger] q[j] == a;
            let i = choose|i: int| 0 <= i < p.len() && #[trigger] p[i] == b;
            lemma_key_le_total_preorder(key, s[a], s[b], s[a]);
            lemma_key_le_total_preorder(key, s[b], s[a], s[b]);
            if j < m {
                assert(p[j] == q[j]);
                assert(precedes(key, s, p[j], p[m]));
            }
            if i < m {
                assert(q[i] == p[i]);
                assert(precedes(key, s, q[i], q[m]));
            }
            assert(j != m && i != m);
            assert(precedes(key, s, q[m], q[j]));
            assert(precedes(key, s, p[m], p[i]));
        }
    }
}

/// The ascending arrangement is unique: any two lists of positions in
/// ascending order of key, ties in original order, are the same list.
pub proof fn lemma_ascending_positions_unique(key: SortKey, s: Seq<OrderListItem>, p: Seq<int>, q: Seq<int>)
    requires
        ascending_positions(key, s, p),
        ascending_positions(key, s, q),
    ensures
        p == q,
{
    lemma_ascending_agree(key, s, p, q, s.len() as int);
    assert(p =~= q);
}

/// A descending sort gives the ascending sort's result reversed, whichever
/// positions the two calls of `sort_orders` report: tied items come out in
/// reverse of their ascending order, not in input order.
pub proof fn lemma_descending_is_reversed_ascending(
    key: SortKey,
    s: Seq<OrderListItem>,
    up: Seq<int>,
    down: Seq<int>,
)
    requires
        ascending_positions(key, s, up),
        ascending_positions(key, s, down),
    ensures
        arranged(s, down, SortDir::Desc) == arranged(s, up, SortDir::Asc).reverse(),
{
    lemma_ascending_positions_unique(key, s, up, down);
    assert(arranged(s, down, SortDir::Desc) =~= arranged(s, up, SortDir::Asc).reverse());
}

/// Of two items that tie on the key, a descending sort puts first the one
/// that stood later in the input.
pub proof fn lemma_descending_reverses_ties(
    key: SortKey,
    s: Seq<OrderListItem>,
    perm: Seq<int>,
    p: int,
    q: int,
)
    requires
        ascending_positions(key, s, perm),
        0 <= p < q < s.len(),
        key_le(key, arranged(s, perm, SortDir::Desc)[p], arranged(s, perm, SortDir::Desc)[q]),
        key_le(key, arranged(s, perm, SortDir::Desc)[q], arranged(s, perm, SortDir::Desc)[p]),
    ensures
        perm[s.len() - 1 - p] > perm[s.len() - 1 - q],
{
    let a = s.len() - 1 - q;
    let b = s.len() - 1 - p;
    assert(precedes(key, s, perm[a], perm[b]));
}

/// The query matches an item: its name, lowered in ASCII, or its number in
/// decimal, contains the lowered query.
pub open spec fn search_hit(item: OrderListItem, needle: Seq<char>) -> bool {
    is_substring(needle, ascii_lower(item.name@)) || is_substring(needle, decimal_of(item.number as nat))
}

/// The items whose name or number contains `q`, ignoring ASCII case; a query
/// that is empty once trimmed keeps every item.
pub open spec fn search_spec(items: Seq<OrderListItem>, q: Seq<char>) -> Seq<OrderListItem> {
    if trim_of(q).len() == 0 {
        items
    } else {
        items.filter(|i: OrderListItem| search_hit(i, ascii_lower(q)))
    }
}

/// The items whose name or number contains `q`; see `search_spec`.
pub fn search_orders(items: &Vec<OrderListItem>, q: &str) -> (r: Vec<OrderListItem>)
    ensures
        r@ == search_spec(items@, q@),
{
    let blank = trim(q).is_empty();
    let needle = to_ascii_lowercase(q);
    let ghost pred = |i: OrderListItem| search_hit(i, ascii_lower(q@));
    let mut out: Vec<OrderListItem> = Vec::new();
    let mut i: usize = 0;
    while i < items.len()
        invariant
            i <= items@.len(),
            needle@ == ascii_lower(q@),
            pred == (|i: OrderListItem| search_hit(i, ascii_lower(q@))),
            blank ==> out@ == items@.subrange(0, i as int),
            !blank ==> out@ == items@.subrange(0, i as int).filter(pred),
        decreases items@.len() - i,
    {
        let item = &items[i];
        proof {
            reveal(Seq::filter);
            let next = items@.subrange(0, i + 1);
            assert(next.drop_last() =~= items@.subrange(0, i as int));
            assert(next.last() == items@[i as int]);
            assert(next =~= items@.subrange(0, i as int).push(items@[i as int]));
        }
        if blank {
            out.push(item.clone());
        } else {
            let name = to_ascii_lowercase(item.name.as_str());
            let num = decimal_string(item.number as u64);
            if contains_str(name.as_str(), needle.as_str()) || contains_str(num.as_str(), needle.as_str()) {
                out.push(item.clone());
            }
        }
        i = i + 1;
    }
    proof {
        assert(items@.subrange(0, items@.len() as int) =~= items@);
    }
    out
}

/// Offset of the first item of a 1-based page; page 0 counts as page 1.
pub open spec fn page_start(page: u32, per_page: u32) -> int {
    (if page == 0 { 0 } else { page - 1 }) * per_page
}

/// The positions `[start, end)` that page `page` covers in a list of `len`
/// items: empty when a page holds nothing or starts past the end.
pub open spec fn page_bounds(len: int, page: u32, per_page: u32) -> (int, int) {
    let start = page_start(page, per_page);
    if per_page == 0 || start >= len {
        (0, 0)
    } else if start + per_page > len {
        (start, len)
    } else {
        (start, start + per_page)
    }
}

fn page_bounds_exec(len: usize, page: u32, per_page: u32) -> (r: (usize, usize))
    ensures
        r.0 == page_bounds(len as int, page, per_page).0,
        r.1 == page_bounds(len as int, page, per_page).1,
        r.0 <= r.1 <= len,
{
    let before: u32 = if page == 0 { 0 } else { page - 1 };
    assert((before as int) * (per_page as int) <= 0xffff_ffff * 0xffff_ffff) by (nonlinear_arith)
        requires
            before <= 0xffff_ffff,
            per_page <= 0xffff_ffff,
    ;
    let start: u64 = (before as u64) * (per_page as u64);
    if per_page == 0 || start >= len as u64 {
        return (0, 0);
    }
    let s = start as usize;
    if (per_page as usize) > len - s {
        (s, len)
    } else {
        (s, s + per_page as usize)
    }
}

/// The total number of items and the items of page `page` (1-based, page 0
/// counting as page 1) of `per_page` items each.
pub fn paginate<T: Clone>(items: &[T], page: u32, per_page: u32) -> (r: (usize, Vec<T>))
    ensures
        r.0 == items@.len(),
        ({
            let (start, end) = page_bounds(items@.len() as int, page, per_page);
            &&& r.1@.len() == end - start
            &&& forall|k: int| 0 <= k < r.1@.len() ==> cloned(items@[start + k], #[trigger] r.1@[k])
        }),
{
    let total = items.len();
    let (start, end) = page_bounds_exec(total, page, per_page);
    let mut out: Vec<T> = Vec::new();
    let mut k: usize = start;
    while k < end
        invariant
            start <= k <= end <= items@.len(),
            out@.len() == k - start,
            forall|j: int| 0 <= j < out@.len() ==> cloned(items@[start + j], #[trigger] out@[j]),
        decreases end - k,
    {
        out.push(items[k].clone());
        k = k + 1;
    }
    (total, out)
}

#[derive(Debug, Clone, Copy, PartialEq, Eq)]
pub struct DashboardSummary {
    pub central_total: u32,
    pub central_ae: u32,
    pub central_fm: u32,
    pub central_nw: u32,
    pub east: u32,
    pub west: u32,
}

impl Default for DashboardSummary {
    fn default() -> (r: DashboardSummary)
        ensures
            r.central_total == 0 && r.central_ae == 0 && r.central_fm == 0,
            r.central_nw == 0 && r.east == 0 && r.west == 0,
    {
        DashboardSummary { central_total: 0, central_ae: 0, central_fm: 0, central_nw: 0, east: 0, west: 0 }
    }
}

/// Sub-bucket of a Central destination, by the first letter of its name.
#[derive(Debug, Clone, Copy, PartialEq, Eq, Structural)]
pub enum Band {
    AE,
    FM,
    NW,
    Other,
}

/// The last order with number `n`: a later entry overrides an earlier one.
pub open spec fn order_by_number(orders: Seq<Order>, n: u32) -> Option<Order>
    decreases orders.len(),
{
    if orders.len() == 0 {
        None
    } else if orders.last().number == n {
        Some(orders.last())
    } else {
        order_by_number(orders.drop_last(), n)
    }
}

/// The last location with id `id`.
pub open spec fn location_by_id(locs: Seq<Location>, id: u32) -> Option<Location>
    decreases locs.len(),
{
    if locs.len() == 0 {
        None
    } else if locs.last().id == id {
        Some(locs.last())
    } else {
        location_by_id(locs.drop_last(), id)
    }
}

/// The last district with id `id`.
pub open spec fn district_by_id(dists: Seq<District>, id: u32) -> Option<District>
    decreases dists.len(),
{
    if dists.len() == 0 {
        None
    } else if dists.last().id == id {
        Some(dists.last())
    } else {
        district_by_id(dists.drop_last(), id)
    }
}

/// The first alphabetic character of a text.
pub open spec fn first_alphabetic(s: Seq<char>) -> Option<char>
    decreases s.len(),
{
    if s.len() == 0 {
        None
    } else if alphabetic(s[0]) {
        Some(s[0])
    } else {
        first_alphabetic(s.drop_first())
    }
}

/// The band of a letter, either case: A to E, F to M, N to W, or none of them.
pub open spec fn band_of_char(c: char) -> Band {
    if ('A' <= c && c <= 'E') || ('a' <= c && c <= 'e') {
        Band::AE
    } else if ('F' <= c && c <= 'M') || ('f' <= c && c <= 'm') {
        Band::FM
    } else if ('N' <= c && c <= 'W') || ('n' <= c && c <= 'w') {
        Band::NW
    } else {
        Band::Other
    }
}

pub open spec fn band_of_name(name: Seq<char>) -> Band {
    match first_alphabetic(name) {
        Some(c) => band_of_char(c),
        None => Band::Other,
    }
}

/// Where a delivery counts on the dashboard: a Complete delivery whose order,
/// destination location and district all resolve counts in that district's
/// region, in the band of the destination's name.
pub open spec fn placement(
    orders: Seq<Order>,
    locs: Seq<Location>,
    dists: Seq<District>,
    d: Delivery,
) -> Option<(Region, Band)> {
    if d.status != DeliveryStatus::COMPLETE {
        None
    } else {
        match order_by_number(orders, d.order_number) {
            None => None,
            Some(o) => match location_by_id(locs, o.destination_id) {
                None => None,
                Some(l) => match district_by_id(dists, l.district_id) {
                    None => None,
                    Some(t) => Some((t.region, band_of_name(l.name@))),
                },
            },
        }
    }
}

pub open spec fn counts_in(p: Option<(Region, Band)>, region: Region, band: Option<Band>) -> bool {
    match p {
        Some((r, b)) => r == region && match band {
            Some(w) => w == b,
            None => true,
        },
        None => false,
    }
}

/// How many deliveries of `ds` count in `region` (and in `band`, if given).
pub open spec fn tally(
    orders: Seq<Order>,
    locs: Seq<Location>,
    dists: Seq<District>,
    ds: Seq<Delivery>,
    region: Region,
    band: Option<Band>,
) -> nat
    decreases ds.len(),
{
    if ds.len() == 0 {
        0
    } else {
        tally(orders, locs, dists, ds.drop_last(), region, band) + if counts_in(
            placement(orders, locs, dists, ds.last()),
            region,
            band,
        ) {
            1nat
        } else {
            0nat
        }
    }
}

fn find_order_by_number(orders: &Vec<Order>, n: u32) -> (r: Option<usize>)
    ensures
        match r {
            Some(k) => k < orders@.len() && order_by_number(orders@, n) == Some(orders@[k as int]),
            None => order_by_number(orders@, n) is None,
        },
{
    let mut j: usize = orders.len();
    proof {
        assert(orders@.subrange(0, j as int) =~= orders@);
    }
    while j > 0
        invariant
            j <= orders@.len(),
            order_by_number(orders@, n) == order_by_number(orders@.subrange(0, j as int), n),
        decreases j,
    {
        proof {
            assert(orders@.subrange(0, j as int).drop_last() =~= orders@.subrange(0, j - 1));
        }
        if orders[j - 1].number == n {
            return Some(j - 1);
        }
        j = j - 1;
    }
    None
}

fn find_location_by_id(locs: &Vec<Location>, id: u32) -> (r: Option<usize>)
    ensures
        match r {
            Some(k) => k < locs@.len() && location_by_id(locs@, id) == Some(locs@[k as int]),
            None => location_by_id(locs@, id) is None,
        },
{
    let mut j: usize = locs.len();
    proof {
        assert(locs@.subrange(0, j as int) =~= locs@);
    }
    while j > 0
        invariant
            j <= locs@.len(),
            location_by_id(locs@, id) == location_by_id(locs@.subrange(0, j as int), id),
        decreases j,
    {
        proof {
            assert(locs@.subrange(0, j as int).drop_last() =~= locs@.subrange(0, j - 1));
        }
        if locs[j - 1].id == id {
            return Some(j - 1);
        }
        j = j - 1;
    }
    None
}

fn find_district_by_id(dists: &Vec<District>, id: u32) -> (r: Option<usize>)
    ensures
        match r {
            Some(k) => k < dists@.len() && district_by_id(dists@, id) == Some(dists@[k as int]),
            None => district_by_id(dists@, id) is None,
        },
{
    let mut j: usize = dists.len();
    proof {
        assert(dists@.subrange(0, j as int) =~= dists@);
    }
    while j > 0
        invariant
            j <= dists@.len(),
            district_by_id(dists@, id) == district_by_id(dists@.subrange(0, j as int), id),
        decreases j,
    {
        proof {
            assert(dists@.subrange(0, j as int).drop_last() =~= dists@.subrange(0, j - 1));
        }
        if dists[j - 1].id == id {
            return Some(j - 1);
        }
        j = j - 1;
    }
    None
}

/// The band of a letter, upper-cased in ASCII: A to E, F to M, N to W, or none.
pub fn letter_band(c: char) -> (r: Band)
    ensures
        r == band_of_char(c),
{
    if ('A' <= c && c <= 'E') || ('a' <= c && c <= 'e') {
        Band::AE
    } else if ('F' <= c && c <= 'M') || ('f' <= c && c <= 'm') {
        Band::FM
    } else if ('N' <= c && c <= 'W') || ('n' <= c && c <= 'w') {
        Band::NW
    } else {
        Band::Other
    }
}

/// The band of a location name, by its first alphabetic character.
pub fn name_band(name: &str) -> (r: Band)
    ensures
        r == band_of_name(name@),
{
    let len = name.unicode_len();
    let mut i: usize = 0;
    proof {
        assert(name@.subrange(0, len as int) =~= name@);
    }
    while i < len
        invariant
            len == name@.len(),
            i <= len,
            first_alphabetic(name@) == first_alphabetic(name@.subrange(i as int, len as int)),
        decreases len - i,
    {
        let c = name.get_char(i);
        proof {
            let rest = name@.subrange(i as int, len as int);
            assert(rest[0] == c);
            assert(rest.drop_first() =~= name@.subrange(i + 1, len as int));
        }
        if is_alphabetic(c) {
            return letter_band(c);
        }
        i = i + 1;
    }
    Band::Other
}

fn place_delivery(
    orders: &Vec<Order>,
    locations: &Vec<Location>,
    districts: &Vec<District>,
    d: &Delivery,
) -> (r: Option<(Region, Band)>)
    ensures
        r == placement(orders@, locations@, districts@, *d),
{
    if d.status != DeliveryStatus::COMPLETE {
        return None;
    }
    let o = match find_order_by_number(orders, d.order_number) {
        Some(k) => k,
        None => {
            return None;
        },
    };
    let l = match find_location_by_id(locations, orders[o].destination_id) {
        Some(k) => k,
        None => {
            return None;
        },
    };
    let t = match find_district_by_id(districts, locations[l].district_id) {
        Some(k) => k,
        None => {
            return None;
        },
    };
    Some((districts[t].region, name_band(locations[l].name.as_str())))
}

proof fn lemma_tally_bounded(
    orders: Seq<Order>,
    locs: Seq<Location>,
    dists: Seq<District>,
    ds: Seq<Delivery>,
    region: Region,
    band: Option<Band>,
)
    ensures
        tally(orders, locs, dists, ds, region, band) <= ds.len(),
    decreases ds.len(),
{
    if ds.len() > 0 {
        lemma_tally_bounded(orders, locs, dists, ds.drop_last(), region, band);
    }
}

/// Counts of Complete deliveries by the region of their order's destination,
/// and for Central also by the band of the destination's name. Deliveries
/// whose order, location or district cannot be resolved are not counted.
pub fn compute_dashboard_summary(
    orders: &Vec<Order>,
    deliveries: &Vec<Delivery>,
    locations: &Vec<Location>,
    districts: &Vec<District>,
) -> (r: DashboardSummary)
    requires
        deliveries@.len() <= u32::MAX,
    ensures
        r.central_total == tally(orders@, locations@, districts@, deliveries@, Region::Central, None),
        r.central_ae == tally(orders@, locations@, districts@, deliveries@, Region::Central, Some(Band::AE)),
        r.central_fm == tally(orders@, locations@, districts@, deliveries@, Region::Central, Some(Band::FM)),
        r.central_nw == tally(orders@, locations@, districts@, deliveries@, Region::Central, Some(Band::NW)),
        r.east == tally(orders@, locations@, districts@, deliveries@, Region::East, None),
        r.west == tally(orders@, locations@, districts@, deliveries@, Region::West, None),
{
    let ghost os = orders@;
    let ghost ls = locations@;
    let ghost ts = districts@;
    let ghost ds = deliveries@;
    let mut out = DashboardSummary::default();
    let mut i: usize = 0;
    while i < deliveries.len()
        invariant
            i <= ds.len() <= u32::MAX,
            ds == deliveries@,
            os == orders@,
            ls == locations@,
            ts == districts@,
            out.central_total == tally(os, ls, ts, ds.subrange(0, i as int), Region::Central, None),
            out.central_ae == tally(os, ls, ts, ds.subrange(0, i as int), Region::Central, Some(Band::AE)),
            out.central_fm == tally(os, ls, ts, ds.subrange(0, i as int), Region::Central, Some(Band::FM)),
            out.central_nw == tally(os, ls, ts, ds.subrange(0, i as int), Region::Central, Some(Band::NW)),
            out.east == tally(os, ls, ts, ds.subrange(0, i as int), Region::East, None),
            out.west == tally(os, ls, ts, ds.subrange(0, i as int), Region::West, None),
        decreases ds.len() - i,
    {
        let ghost prefix = ds.subrange(0, i as int);
        let ghost next = ds.subrange(0, i + 1);
        proof {
            assert(next.drop_last() =~= prefix);
            assert(next.last() == ds[i as int]);
            lemma_tally_bounded(os, ls, ts, prefix, Region::Central, None);
            lemma_tally_bounded(os, ls, ts, prefix, Region::Central, Some(Band::AE));
            lemma_tally_bounded(os, ls, ts, prefix, Region::Central, Some(Band::FM));
            lemma_tally_bounded(os, ls, ts, prefix, Region::Central, Some(Band::NW));
            lemma_tally_bounded(os, ls, ts, prefix, Region::East, None);
            lemma_tally_bounded(os, ls, ts, prefix, Region::West, None);
        }
        match place_delivery(orders, locations, districts, &deliveries[i]) {
            Some((Region::East, _)) => {
                out.east = out.east + 1;
            },
            Some((Region::West, _)) => {
                out.west = out.west + 1;
            },
            Some((Region::Central, band)) => {
                out.central_total = out.central_total + 1;
                match band {
                    Band::AE => {
                        out.central_ae = out.central_ae + 1;
                    },
                    Band::FM => {
                        out.central_fm = out.central_fm + 1;
                    },
                    Band::NW => {
                        out.central_nw = out.central_nw + 1;
                    },
                    Band::Other => {},
                }
            },
            None => {},
        }
        i = i + 1;
    }
    proof {
        assert(ds.subrange(0, ds.len() as int) =~= ds);
    }
    out
}

/// Reads a sort key: `name`, `weight` and `max_likes` name theirs; anything
/// else, or nothing, sorts by number.
pub open spec fn sort_key_of(s: Option<Seq<char>>) -> SortKey {
    match s {
        Some(t) => if t == "name"@ {
            SortKey::Name
        } else if t == "weight"@ {
            SortKey::Weight
        } else if t == "max_likes"@ {
            SortKey::MaxLikes
        } else {
            SortKey::Number
        },
        None => SortKey::Number,
    }
}

pub fn parse_sort_key(s: Option<&str>) -> (r: SortKey)
    ensures
        r == sort_key_of(text_view(s)),
{
    match s {
        Some(t) => if text_eq(t, "name") {
            SortKey::Name
        } else if text_eq(t, "weight") {
            SortKey::Weight
        } else if text_eq(t, "max_likes") {
            SortKey::MaxLikes
        } else {
            SortKey::Number
        },
        None => SortKey::Number,
    }
}

/// Reads a sort direction: `desc` is descending, anything else ascending.
pub fn parse_sort_dir(s: Option<&str>) -> (r: SortDir)
    ensures
        r == (if (match s {
            Some(t) => t@ == "desc"@,
            None => false,
        }) {
            SortDir::Desc
        } else {
            SortDir::Asc
        }),
{
    match s {
        Some(t) => if text_eq(t, "desc") {
            SortDir::Desc
        } else {
            SortDir::Asc
        },
        None => SortDir::Asc,
    }
}

pub open spec fn text_view(s: Option<&str>) -> Option<Seq<char>> {
    match s {
        Some(t) => Some(t@),
        None => None,
    }
}

/// The items of page `page` of `per_page` items; see `page_bounds`.
pub open spec fn page_of(items: Seq<OrderListItem>, page: u32, per_page: u32) -> Seq<OrderListItem> {
    let (start, end) = page_bounds(items.len() as int, page, per_page);
    items.subrange(start, end)
}

/// The list of a query before pagination: the orders that pass `f`, as list
/// items laid out along `perm`, narrowed by the search text if one is given.
pub open spec fn query_list(
    orders: Seq<Order>,
    deliveries: Seq<Delivery>,
    locations: Seq<Location>,
    f: OrdersFilter,
    perm: Seq<int>,
    dir: SortDir,
    search: Option<Seq<char>>,
) -> Seq<OrderListItem> {
    let listed = orders.filter(|o: Order| passes(f, o, deliveries, locations)).map_values(
        |o: Order| list_item(o, deliveries),
    );
    let sorted = arranged(listed, perm, dir);
    match search {
        Some(q) => search_spec(sorted, q),
        None => sorted,
    }
}

pub open spec fn counter<A>(pred: spec_fn(A) -> bool) -> spec_fn(A, nat) -> nat {
    |x: A, acc: nat| if pred(x) { acc + 1 } else { acc }
}

proof fn lemma_filter_len_fold<A>(s: Seq<A>, pred: spec_fn(A) -> bool, v: nat)
    ensures
        s.fold_right(counter(pred), v) == v + s.filter(pred).len(),
    decreases s.len(),
{
    reveal(Seq::filter);
    if s.len() > 0 {
        lemma_filter_len_fold(s.drop_last(), pred, counter(pred)(s.last(), v));
    }
}

/// Two sequences with the same elements, counted with multiplicity, keep
/// equally many elements under any filter.
pub proof fn lemma_filter_len_same_multiset<A>(a: Seq<A>, b: Seq<A>, pred: spec_fn(A) -> bool)
    requires
        a.to_multiset() == b.to_multiset(),
    ensures
        a.filter(pred).len() == b.filter(pred).len(),
{
    assert(vstd::seq_lib::commutative_foldr(counter(pred)));
    vstd::seq_lib::lemma_fold_right_permutation(a, b, counter(pred), 0);
    lemma_filter_len_fold(a, pred, 0);
    lemma_filter_len_fold(b, pred, 0);
}

/// The list of a query before sorting and pagination: the filtered orders as
/// list items, narrowed by the search text if one is given.
pub open spec fn unsorted_query_list(
    orders: Seq<Order>,
    deliveries: Seq<Delivery>,
    locations: Seq<Location>,
    f: OrdersFilter,
    search: Option<Seq<char>>,
) -> Seq<OrderListItem> {
    let listed = orders.filter(|o: Order| passes(f, o, deliveries, locations)).map_values(
        |o: Order| list_item(o, deliveries),
    );
    match search {
        Some(q) => search_spec(listed, q),
        None => listed,
    }
}

/// A full query: filter, project to list items, sort, search, then paginate;
/// page 0 counts as page 1 and a page size of 0 gives an empty page. The total
/// counts every item that survived the filter and the search, whatever page
/// was asked for.
pub fn run_query(
    orders: &Vec<Order>,
    deliveries: &Vec<Delivery>,
    locations: &Vec<Location>,
    filter: &OrdersFilter,
    page: u32,
    per_page: u32,
    key: SortKey,
    dir: SortDir,
    search: Option<&str>,
) -> (r: QueryResult<OrderListItem>)
    ensures
        exists|perm: Seq<int>|
            {
                let listed = orders@.filter(|o: Order| passes(*filter, o, deliveries@, locations@)).map_values(
                    |o: Order| list_item(o, deliveries@),
                );
                let list = #[trigger] query_list(
                    orders@,
                    deliveries@,
                    locations@,
                    *filter,
                    perm,
                    dir,
                    text_view(search),
                );
                &&& ascending_positions(key, listed, perm)
                &&& r.total == list.len()
                &&& r.items@ == page_of(list, page, per_page)
            },
        r.total == unsorted_query_list(orders@, deliveries@, locations@, *filter, text_view(search)).len(),
{
    let refs = filter_orders(orders, deliveries, locations, filter);
    let ghost kept = orders@.filter(|o: Order| passes(*filter, o, deliveries@, locations@));
    let mut owned: Vec<Order> = Vec::new();
    let mut i: usize = 0;
    while i < refs.len()
        invariant
            i <= refs@.len(),
            refs@.len() == kept.len(),
            forall|k: int| 0 <= k < refs@.len() ==> *(#[trigger] refs@[k]) == kept[k],
            owned@.len() == i,
            forall|k: int| 0 <= k < i ==> #[trigger] owned@[k] == kept[k],
        decreases refs@.len() - i,
    {
        owned.push(refs[i].clone());
        i = i + 1;
    }
    assert(owned@ =~= kept);
    let mut list = map_orders_to_list_items(&owned, deliveries);
    let ghost listed = list@;
    assert(listed =~= kept.map_values(|o: Order| list_item(o, deliveries@)));
    sort_orders(&mut list, key, dir);
    proof {
        if let Some(q) = search {
            if trim_of(q@).len() != 0 {
                lemma_filter_len_same_multiset(
                    list@,
                    listed,
                    |i: OrderListItem| search_hit(i, ascii_lower(q@)),
                );
            }
        }
    }
    let ghost perm = choose|perm: Seq<int>| ascending_positions(key, listed, perm) && list@ == #[trigger] arranged(listed, perm, dir);
    let list = match search {
        Some(q) => search_orders(&list, q),
        None => list,
    };
    let (total, items) = paginate(list.as_slice(), page, per_page);
    proof {
        let (start, end) = page_bounds(list@.len() as int, page, per_page);
        assert(items@ =~= list@.subrange(start, end));
        assert(list@ == query_list(orders@, deliveries@, locations@, *filter, perm, dir, text_view(search)));
    }
    QueryResult { total, items }
}

} // verus!
