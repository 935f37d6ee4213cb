use vstd::prelude::*;
use vstd::string::*;
use crate::text::{ascii_lower, text_eq, to_ascii_lowercase};

verus! {

/// The three regions that districts are grouped into.
#[derive(Debug, Clone, Copy, PartialEq, Eq, Structural)]
pub enum Region {
    East,
    Central,
    West,
}

#[derive(Debug, Clone)]
pub struct District {
    pub id: u32,
    pub name: String,
    pub region: Region,
}

#[derive(Debug, Clone)]
pub struct Location {
    pub id: u32,
    pub name: String,
    pub district_id: u32,
    pub is_physical: bool,
}

#[derive(Debug, Clone)]
pub struct DeliveryCategory {
    pub id: u32,
    pub name: String,
}

/// An IEEE-754 single-precision number, held as its bit pattern.
///
/// The library only ever compares such values; `ordinal` gives the numeric
/// order of every value that is not a NaN.
#[derive(Debug, Clone, Copy, PartialEq, Eq, Structural)]
pub struct FloatBits {
    pub bits: u32,
}

pub const SIGN_BIT: u32 = 0x8000_0000;

pub const POSITIVE_INFINITY_BITS: u32 = 0x7f80_0000;

impl FloatBits {
    /// A NaN: all exponent bits set and a non-zero fraction.
    pub open spec fn is_nan(self) -> bool {
        let magnitude = if self.bits >= SIGN_BIT { self.bits - SIGN_BIT } else { self.bits as int };
        magnitude > POSITIVE_INFINITY_BITS
    }

    /// Position of the value on the number line: the magnitude bits, negated
    /// for negative values. Both zeros get 0; a NaN is ranked with the zeros.
    pub open spec fn ordinal(self) -> int {
        if self.is_nan() {
            0
        } else if self.bits >= SIGN_BIT {
            SIGN_BIT - self.bits
        } else {
            self.bits as int
        }
    }

    pub fn from_bits(bits: u32) -> (r: FloatBits)
        ensures
            r.bits == bits,
    {
        FloatBits { bits }
    }

    pub fn to_bits(&self) -> (r: u32)
        ensures
            r == self.bits,
    {
        self.bits
    }

    pub fn ordinal_value(&self) -> (r: i64)
        ensures
            r == self.ordinal(),
    {
        let magnitude: u32 = if self.bits >= SIGN_BIT { self.bits - SIGN_BIT } else { self.bits };
        if magnitude > POSITIVE_INFINITY_BITS {
            0
        } else if self.bits >= SIGN_BIT {
            0i64 - (magnitude as i64)
        } else {
            self.bits as i64
        }
    }
}

#[derive(Debug)]
pub struct Order {
    /// Unique order number
    pub number: u32,
    pub name: String,
    /// Location id
    pub client_id: u32,
    /// Location id
    pub destination_id: u32,
    pub delivery_category_id: u32,
    pub max_likes: FloatBits,
    pub weight: FloatBits,
}

impl Clone for Order {
    fn clone(&self) -> (r: Order)
        ensures
            r == *self,
    {
        Order {
            number: self.number,
            name: self.name.clone(),
            client_id: self.client_id,
            destination_id: self.destination_id,
            delivery_category_id: self.delivery_category_id,
            max_likes: self.max_likes,
            weight: self.weight,
        }
    }
}

#[allow(non_camel_case_types)]
#[derive(Debug, Clone, Copy, PartialEq, Eq, Structural)]
pub enum DeliveryStatus {
    InProgress,
    STORED,
    COMPLETE,
    FAILED,
    LOST,
}

impl DeliveryStatus {
    /// InProgress and Stored are the states from which a delivery can still move.
    pub open spec fn is_active(self) -> bool {
        self == DeliveryStatus::InProgress || self == DeliveryStatus::STORED
    }
}

#[derive(Debug, Clone)]
pub struct Delivery {
    pub id: u32,
    pub order_number: u32,
    pub status: DeliveryStatus,
    pub location_id: Option<u32>,
    pub started_at: Option<String>,
    pub ended_at: Option<String>,
    pub comment: Option<String>,
    pub user_id: Option<u32>,
}

#[derive(Debug, Clone)]
pub struct User {
    pub id: u32,
    pub name: String,
    pub email: String,
}

/// Some two orders share a number.
pub open spec fn has_duplicate_number(orders: Seq<Order>) -> bool {
    exists|i: int, j: int|
        0 <= i < j < orders.len() && #[trigger] orders[i].number == #[trigger] orders[j].number
}

/// Why a collection of orders cannot be accepted.
#[derive(Debug, Clone, Copy, PartialEq, Eq, Structural)]
pub enum ImportError {
    DuplicateNumber(u32),
}

/// Accepts a collection of orders only when their numbers are pairwise distinct;
/// otherwise names the number of the first order whose number occurred before.
pub fn validate_orders(orders: &Vec<Order>) -> (r: Result<(), ImportError>)
    ensures
        r is Ok <==> !has_duplicate_number(orders@),
        r matches Err(ImportError::DuplicateNumber(n)) ==> exists|i: int, j: int|
            0 <= i < j < orders@.len() && orders@[i].number == n && orders@[j].number == n,
{
    let mut j: usize = 0;
    while j < orders.len()
        invariant
            j <= orders@.len(),
            forall|a: int, b: int|
                0 <= a < b < j ==> #[trigger] orders@[a].number != #[trigger] orders@[b].number,
        decreases orders@.len() - j,
    {
        let mut i: usize = 0;
        while i < j
            invariant
                i <= j < orders@.len(),
                forall|a: int| 0 <= a < i ==> #[trigger] orders@[a].number != orders@[j as int].number,
            decreases j - i,
        {
            if orders[i].number == orders[j].number {
                return Err(ImportError::DuplicateNumber(orders[j].number));
            }
            i = i + 1;
        }
        j = j + 1;
    }
    Ok(())
}

/// The delivery status that a text names, ignoring ASCII case.
pub open spec fn status_named(t: Seq<char>) -> Option<DeliveryStatus> {
    if t == "in progress"@ || t == "in_progress"@ || t == "inprogress"@ {
        Some(DeliveryStatus::InProgress)
    } else if t == "stored"@ {
        Some(DeliveryStatus::STORED)
    } else if t == "complete"@ || t == "completed"@ {
        Some(DeliveryStatus::COMPLETE)
    } else if t == "failed"@ || t == "fail"@ {
        Some(DeliveryStatus::FAILED)
    } else if t == "lost"@ {
        Some(DeliveryStatus::LOST)
    } else {
        None
    }
}

/// Reads a delivery status written as text, in any ASCII case.
pub fn parse_delivery_status(s: &str) -> (r: Option<DeliveryStatus>)
    ensures
        r == status_named(ascii_lower(s@)),
{
    let lowered = to_ascii_lowercase(s);
    let t = lowered.as_str();
    if text_eq(t, "in progress") || text_eq(t, "in_progress") || text_eq(t, "inprogress") {
        Some(DeliveryStatus::InProgress)
    } else if text_eq(t, "stored") {
        Some(DeliveryStatus::STORED)
    } else if text_eq(t, "complete") || text_eq(t, "completed") {
        Some(DeliveryStatus::COMPLETE)
    } else if text_eq(t, "failed") || text_eq(t, "fail") {
        Some(DeliveryStatus::FAILED)
    } else if text_eq(t, "lost") {
        Some(DeliveryStatus::LOST)
    } else {
        None
    }
}

/// The truth value that a text names, ignoring ASCII case.
pub open spec fn flag_named(t: Seq<char>) -> Option<bool> {
    if t == "true"@ || t == "1"@ || t == "yes"@ || t == "y"@ {
        Some(true)
    } else if t == "false"@ || t == "0"@ || t == "no"@ || t == "n"@ {
        Some(false)
    } else {
        None
    }
}

/// Reads a truth value written as text, in any ASCII case.
pub fn parse_flag(s: &str) -> (r: Option<bool>)
    ensures
        r == flag_named(ascii_lower(s@)),
{
    let lowered = to_ascii_lowercase(s);
    let t = lowered.as_str();
    if text_eq(t, "true") || text_eq(t, "1") || text_eq(t, "yes") || text_eq(t, "y") {
        Some(true)
    } else if text_eq(t, "false") || text_eq(t, "0") || text_eq(t, "no") || text_eq(t, "n") {
        Some(false)
    } else {
        None
    }
}

/// A whole number read as a truth value: zero is false, anything else true.
pub fn flag_from_integer(n: i128) -> (r: bool)
    ensures
        r == (n != 0),
{
    n != 0
}

/// Position of the first location with id `id`.
pub fn find_location(locations: &Vec<Location>, id: u32) -> (r: Option<usize>)
    ensures
        match r {
            Some(k) => k < locations@.len() && locations@[k as int].id == id && forall|j: int|
                0 <= j < k ==> #[trigger] locations@[j].id != id,
            None => forall|j: int| 0 <= j < locations@.len() ==> #[trigger] locations@[j].id != id,
        },
{
    let mut k: usize = 0;
    while k < locations.len()
        invariant
            k <= locations@.len(),
            forall|j: int| 0 <= j < k ==> #[trigger] locations@[j].id != id,
        decreases locations@.len() - k,
    {
        if locations[k].id == id {
            return Some(k);
        }
        k = k + 1;
    }
    None
}

/// Position of the first district with id `id`.
pub fn find_district(districts: &Vec<District>, id: u32) -> (r: Option<usize>)
    ensures
        match r {
            Some(k) => k < districts@.len() && districts@[k as int].id == id && forall|j: int|
                0 <= j < k ==> #[trigger] districts@[j].id != id,
            None => forall|j: int| 0 <= j < districts@.len() ==> #[trigger] districts@[j].id != id,
        },
{
    let mut k: usize = 0;
    while k < districts.len()
        invariant
            k <= districts@.len(),
            forall|j: int| 0 <= j < k ==> #[trigger] districts@[j].id != id,
        decreases districts@.len() - k,
    {
        if districts[k].id == id {
            return Some(k);
        }
        k = k + 1;
    }
    None
}

} // verus!
