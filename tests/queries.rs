use death_stranding_poc::models::{
    flag_from_integer, parse_delivery_status, parse_flag, Delivery, DeliveryStatus, District,
    FloatBits, Location, Order, Region,
};
use death_stranding_poc::services::{
    compute_dashboard_summary, filter_orders, key_le_exec, letter_band, map_orders_to_list_items, name_band,
    paginate, parse_sort_dir, parse_sort_key, run_query, search_orders, sort_orders, Band,
    DeliveryStatusFilter, OrderListItem, OrdersFilter, SortDir, SortKey,
};
use death_stranding_poc::text::{text_eq, text_le};

fn fb(x: f32) -> FloatBits {
    FloatBits::from_bits(x.to_bits())
}

fn ord(number: u32, name: &str, client_id: u32, destination_id: u32, weight: f32) -> Order {
    Order {
        number,
        name: name.to_string(),
        client_id,
        destination_id,
        delivery_category_id: 1,
        max_likes: fb(weight * 2.0),
        weight: fb(weight),
    }
}

fn loc(id: u32, name: &str, district_id: u32) -> Location {
    Location {
        id,
        name: name.to_string(),
        district_id,
        is_physical: true,
    }
}

fn dist(id: u32, region: Region) -> District {
    District {
        id,
        name: format!("D{}", id),
        region,
    }
}

fn del(id: u32, order_number: u32, status: DeliveryStatus, user_id: Option<u32>) -> Delivery {
    Delivery {
        id,
        order_number,
        status,
        location_id: None,
        started_at: None,
        ended_at: None,
        comment: None,
        user_id,
    }
}

fn item(number: u32, name: &str, weight: f32) -> OrderListItem {
    OrderListItem {
        number,
        name: name.to_string(),
        client_id: 0,
        destination_id: 0,
        delivery_category_id: 0,
        max_likes: fb(weight),
        weight: fb(weight),
        delivery_status: None,
        is_completed: false,
    }
}

#[test]
fn district_filter_matches_either_end() {
    let orders = vec![ord(1, "a", 10, 20, 1.0), ord(2, "b", 11, 21, 1.0)];
    let locations = vec![loc(10, "x", 1), loc(11, "y", 1), loc(20, "z", 2), loc(21, "w", 2)];
    let mut f = OrdersFilter::default();
    f.district_id = Some(1);
    let nums: Vec<u32> = filter_orders(&orders, &vec![], &locations, &f)
        .into_iter()
        .map(|o| o.number)
        .collect();
    assert_eq!(nums, vec![1, 2]);
    f.district_id = Some(2);
    let nums: Vec<u32> = filter_orders(&orders, &vec![], &locations, &f)
        .into_iter()
        .map(|o| o.number)
        .collect();
    assert_eq!(nums, vec![1, 2]);
    f.district_id = Some(3);
    assert!(filter_orders(&orders, &vec![], &locations, &f).is_empty());
}

#[test]
fn combined_filter_same_whatever_the_order() {
    let orders = vec![
        ord(1, "a", 10, 20, 1.0),
        ord(2, "b", 10, 21, 1.0),
        ord(3, "c", 11, 20, 1.0),
    ];
    let locations = vec![loc(10, "x", 1), loc(11, "y", 2), loc(20, "z", 3), loc(21, "w", 3)];
    let deliveries = vec![del(1, 2, DeliveryStatus::COMPLETE, Some(1))];
    let mut all = OrdersFilter::default();
    all.client_id = Some(10);
    all.completion = Some(false);
    let nums: Vec<u32> = filter_orders(&orders, &deliveries, &locations, &all)
        .into_iter()
        .map(|o| o.number)
        .collect();
    assert_eq!(nums, vec![1]);
    // one criterion at a time, in either order
    let mut by_client = OrdersFilter::default();
    by_client.client_id = Some(10);
    let mut by_completion = OrdersFilter::default();
    by_completion.completion = Some(false);
    let step: Vec<Order> = filter_orders(&orders, &deliveries, &locations, &by_client)
        .into_iter()
        .cloned()
        .collect();
    let a: Vec<u32> = filter_orders(&step, &deliveries, &locations, &by_completion)
        .into_iter()
        .map(|o| o.number)
        .collect();
    let step: Vec<Order> = filter_orders(&orders, &deliveries, &locations, &by_completion)
        .into_iter()
        .cloned()
        .collect();
    let b: Vec<u32> = filter_orders(&step, &deliveries, &locations, &by_client)
        .into_iter()
        .map(|o| o.number)
        .collect();
    assert_eq!(a, nums);
    assert_eq!(b, nums);
}

#[test]
fn status_filter_none_and_any() {
    let orders = vec![ord(1, "a", 10, 20, 1.0), ord(2, "b", 10, 20, 1.0)];
    let deliveries = vec![del(1, 1, DeliveryStatus::LOST, Some(2))];
    let mut f = OrdersFilter::default();
    f.delivery_status = Some(DeliveryStatusFilter::NoDelivery);
    let nums: Vec<u32> = filter_orders(&orders, &deliveries, &vec![], &f)
        .into_iter()
        .map(|o| o.number)
        .collect();
    assert_eq!(nums, vec![2]);
    f.delivery_status = Some(DeliveryStatusFilter::Any);
    let nums: Vec<u32> = filter_orders(&orders, &deliveries, &vec![], &f)
        .into_iter()
        .map(|o| o.number)
        .collect();
    assert_eq!(nums, vec![1]);
}

#[test]
fn list_items_show_active_before_history() {
    let orders = vec![ord(1, "a", 10, 20, 1.0), ord(2, "b", 10, 20, 1.0)];
    let deliveries = vec![
        del(1, 1, DeliveryStatus::COMPLETE, Some(1)),
        del(2, 1, DeliveryStatus::STORED, None),
    ];
    let items = map_orders_to_list_items(&orders, &deliveries);
    assert_eq!(items.len(), 2);
    assert_eq!(items[0].delivery_status, Some(DeliveryStatus::STORED));
    assert!(items[0].is_completed);
    assert_eq!(items[1].delivery_status, None);
    assert!(!items[1].is_completed);
    assert_eq!(items[0].name, "a");
}

#[test]
fn descending_sort_reverses_ties() {
    let mut items = vec![item(1, "x", 2.0), item(2, "y", 1.0), item(3, "z", 2.0), item(4, "w", 1.0)];
    sort_orders(&mut items, SortKey::Weight, SortDir::Asc);
    let nums: Vec<u32> = items.iter().map(|i| i.number).collect();
    assert_eq!(nums, vec![2, 4, 1, 3]);
    let mut items = vec![item(1, "x", 2.0), item(2, "y", 1.0), item(3, "z", 2.0), item(4, "w", 1.0)];
    sort_orders(&mut items, SortKey::Weight, SortDir::Desc);
    let nums: Vec<u32> = items.iter().map(|i| i.number).collect();
    assert_eq!(nums, vec![3, 1, 4, 2]);
}

#[test]
fn sort_by_max_likes_with_negatives_and_zeros() {
    let mut items = vec![
        item(1, "a", 3.5),
        item(2, "b", -1.0),
        item(3, "c", 0.0),
        item(4, "d", -0.0),
        item(5, "e", -7.25),
        item(6, "f", f32::INFINITY),
    ];
    sort_orders(&mut items, SortKey::MaxLikes, SortDir::Asc);
    let nums: Vec<u32> = items.iter().map(|i| i.number).collect();
    assert_eq!(nums, vec![5, 2, 3, 4, 1, 6]);
}

#[test]
fn sort_by_name_ignores_case() {
    let mut items = vec![item(1, "delta", 0.0), item(2, "Bravo", 0.0), item(3, "alpha", 0.0), item(4, "CHARLIE", 0.0)];
    sort_orders(&mut items, SortKey::Name, SortDir::Asc);
    let names: Vec<&str> = items.iter().map(|i| i.name.as_str()).collect();
    assert_eq!(names, vec!["alpha", "Bravo", "CHARLIE", "delta"]);
    assert!(key_le_exec(SortKey::Name, &item(1, "ÉCLAIR", 0.0), &item(2, "éclair", 0.0)));
    assert!(!key_le_exec(SortKey::Number, &item(2, "a", 0.0), &item(1, "a", 0.0)));
}

#[test]
fn text_order_and_equality() {
    assert!(text_le("abc", "abd"));
    assert!(text_le("ab", "abc"));
    assert!(!text_le("abc", "ab"));
    assert!(text_le("", ""));
    assert!(text_eq("same", "same"));
    assert!(!text_eq("same", "sane"));
}

#[test]
fn search_is_case_insensitive_on_name() {
    let items = vec![item(15, "Heavy CARGO", 0.0), item(7, "light", 0.0), item(115, "x", 0.0)];
    let hits = search_orders(&items, "cArGo");
    assert_eq!(hits.len(), 1);
    assert_eq!(hits[0].number, 15);
    let hits: Vec<u32> = search_orders(&items, "15").iter().map(|i| i.number).collect();
    assert_eq!(hits, vec![15, 115]);
    assert!(search_orders(&items, "zzz").is_empty());
    assert_eq!(search_orders(&items, "").len(), 3);
    assert_eq!(search_orders(&items, " \t\u{3000}").len(), 3);
    assert_eq!(search_orders(&items, " 7").len(), 0);
}

#[test]
fn paginate_last_partial_page() {
    let items: Vec<u32> = (1..=7).collect();
    assert_eq!(paginate(&items, 3, 3), (7, vec![7]));
    assert_eq!(paginate(&items, 1, 10), (7, items.clone()));
    assert_eq!(paginate(&items, 4, 3), (7, vec![]));
    let empty: Vec<u32> = vec![];
    assert_eq!(paginate(&empty, 1, 3), (0, vec![]));
}

#[test]
fn query_reports_total_beyond_last_page() {
    let orders = vec![
        ord(1, "Cargo one", 10, 20, 3.0),
        ord(2, "Parcel", 10, 20, 1.0),
        ord(3, "cargo three", 10, 20, 2.0),
    ];
    let deliveries = vec![del(1, 2, DeliveryStatus::InProgress, Some(1))];
    let f = OrdersFilter::default();
    let r = run_query(&orders, &deliveries, &vec![], &f, 9, 2, SortKey::Weight, SortDir::Asc, None);
    assert_eq!(r.total, 3);
    assert!(r.items.is_empty());
    let r = run_query(&orders, &deliveries, &vec![], &f, 1, 2, SortKey::Weight, SortDir::Desc, Some("cargo"));
    assert_eq!(r.total, 2);
    let nums: Vec<u32> = r.items.iter().map(|i| i.number).collect();
    assert_eq!(nums, vec![1, 3]);
    // a page size of 0 gives an empty page with the true total
    let r = run_query(&orders, &deliveries, &vec![], &f, 1, 0, SortKey::Number, SortDir::Asc, None);
    assert_eq!(r.total, 3);
    assert!(r.items.is_empty());
    // page 0 counts as page 1
    let r = run_query(&orders, &deliveries, &vec![], &f, 0, 1, SortKey::Number, SortDir::Asc, None);
    assert_eq!(r.items.len(), 1);
    assert_eq!(r.items[0].number, 1);
    let r = run_query(&orders, &deliveries, &vec![], &f, 2, 1, SortKey::Number, SortDir::Asc, None);
    assert_eq!(r.items[0].number, 2);
    assert_eq!(r.items[0].delivery_status, Some(DeliveryStatus::InProgress));
}

#[test]
fn sort_key_and_direction_from_text() {
    assert_eq!(parse_sort_key(Some("name")), SortKey::Name);
    assert_eq!(parse_sort_key(Some("weight")), SortKey::Weight);
    assert_eq!(parse_sort_key(Some("max_likes")), SortKey::MaxLikes);
    assert_eq!(parse_sort_key(Some("Name")), SortKey::Number);
    assert_eq!(parse_sort_key(None), SortKey::Number);
    assert_eq!(parse_sort_dir(Some("desc")), SortDir::Desc);
    assert_eq!(parse_sort_dir(Some("asc")), SortDir::Asc);
    assert_eq!(parse_sort_dir(None), SortDir::Asc);
}

#[test]
fn lenient_status_and_flag_text() {
    assert_eq!(parse_delivery_status("In Progress"), Some(DeliveryStatus::InProgress));
    assert_eq!(parse_delivery_status("IN_PROGRESS"), Some(DeliveryStatus::InProgress));
    assert_eq!(parse_delivery_status("inprogress"), Some(DeliveryStatus::InProgress));
    assert_eq!(parse_delivery_status("Stored"), Some(DeliveryStatus::STORED));
    assert_eq!(parse_delivery_status("COMPLETED"), Some(DeliveryStatus::COMPLETE));
    assert_eq!(parse_delivery_status("fail"), Some(DeliveryStatus::FAILED));
    assert_eq!(parse_delivery_status("Lost"), Some(DeliveryStatus::LOST));
    assert_eq!(parse_delivery_status("pending"), None);
    assert_eq!(parse_flag("YES"), Some(true));
    assert_eq!(parse_flag("y"), Some(true));
    assert_eq!(parse_flag("1"), Some(true));
    assert_eq!(parse_flag("False"), Some(false));
    assert_eq!(parse_flag("0"), Some(false));
    assert_eq!(parse_flag("maybe"), None);
    assert!(flag_from_integer(-2));
    assert!(!flag_from_integer(0));
}

#[test]
fn name_bands() {
    assert_eq!(name_band("alpha"), Band::AE);
    assert_eq!(name_band("  9 Mountain"), Band::FM);
    assert_eq!(name_band("west"), Band::NW);
    assert_eq!(name_band("Xeno"), Band::Other);
    assert_eq!(name_band("123"), Band::Other);
    assert_eq!(name_band(""), Band::Other);
    assert_eq!(letter_band('e'), Band::AE);
    assert_eq!(letter_band('F'), Band::FM);
    assert_eq!(letter_band('w'), Band::NW);
    assert_eq!(letter_band('X'), Band::Other);
    assert_eq!(name_band("Ñandu"), Band::Other);
}

#[test]
fn dashboard_counts_by_region_and_band() {
    let districts = vec![dist(1, Region::East), dist(2, Region::West), dist(3, Region::Central)];
    let locations = vec![
        loc(10, "East Town", 1),
        loc(20, "West Town", 2),
        loc(30, "Alpha", 3),
        loc(31, "1 Gamma", 3),
        loc(32, "nova", 3),
        loc(33, "Zulu", 3),
        loc(34, "Nowhere", 99),
    ];
    let orders = vec![
        ord(1, "o", 30, 10, 1.0),
        ord(2, "o", 10, 20, 1.0),
        ord(3, "o", 10, 30, 1.0),
        ord(4, "o", 10, 31, 1.0),
        ord(5, "o", 10, 32, 1.0),
        ord(6, "o", 10, 33, 1.0),
        ord(7, "o", 10, 34, 1.0),
    ];
    let deliveries = vec![
        del(1, 1, DeliveryStatus::COMPLETE, Some(1)),
        del(2, 2, DeliveryStatus::COMPLETE, Some(2)),
        del(3, 3, DeliveryStatus::COMPLETE, None),
        del(4, 4, DeliveryStatus::COMPLETE, Some(1)),
        del(5, 5, DeliveryStatus::COMPLETE, Some(1)),
        del(6, 6, DeliveryStatus::COMPLETE, Some(1)),
        del(7, 7, DeliveryStatus::COMPLETE, Some(1)),
        del(8, 8, DeliveryStatus::COMPLETE, Some(1)),
        del(9, 3, DeliveryStatus::FAILED, Some(1)),
        del(10, 3, DeliveryStatus::COMPLETE, Some(1)),
    ];
    let s = compute_dashboard_summary(&orders, &deliveries, &locations, &districts);
    assert_eq!(s.east, 1);
    assert_eq!(s.west, 1);
    assert_eq!(s.central_total, 5);
    assert_eq!(s.central_ae, 2);
    assert_eq!(s.central_fm, 1);
    assert_eq!(s.central_nw, 1);
}
