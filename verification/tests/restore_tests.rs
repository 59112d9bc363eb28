use haruki_sekai::restore::{nuverse_master_restorer, restore_compact_data, restore_dict};
use haruki_sekai::value::{JsonMap, JsonVal};

fn s(v: &str) -> JsonVal {
    JsonVal::Str(v.to_owned())
}

fn arr(items: Vec<JsonVal>) -> JsonVal {
    JsonVal::Arr(items)
}

fn obj(entries: Vec<(&str, JsonVal)>) -> JsonMap {
    let mut m = JsonMap::new();
    for (k, v) in entries {
        m.insert(k.to_owned(), v);
    }
    m
}

#[test]
fn test_restore_dict_simple() {
    let array_data = vec![JsonVal::Int(1), s("hello"), JsonVal::Bool(true)];
    let structure = vec![s("id"), s("name"), s("active")];
    let result = restore_dict(&array_data, &structure);
    assert_eq!(result.get("id"), Some(&JsonVal::Int(1)));
    assert_eq!(result.get("name"), Some(&s("hello")));
    assert_eq!(result.get("active"), Some(&JsonVal::Bool(true)));
}

#[test]
fn test_restore_dict_nested() {
    let array_data = vec![
        JsonVal::Int(1),
        arr(vec![
            arr(vec![JsonVal::Int(100), JsonVal::Int(10)]),
            arr(vec![JsonVal::Int(200), JsonVal::Int(20)]),
        ]),
    ];
    let structure = vec![
        s("id"),
        arr(vec![s("costs"), arr(vec![s("resourceId"), s("quantity")])]),
    ];
    let result = restore_dict(&array_data, &structure);
    assert_eq!(result.get("id"), Some(&JsonVal::Int(1)));
    let costs = match result.get("costs").unwrap() {
        JsonVal::Arr(items) => items,
        other => panic!("expected array, got {:?}", other),
    };
    assert_eq!(costs.len(), 2);
    let first = match &costs[0] {
        JsonVal::Obj(m) => m,
        other => panic!("expected object, got {:?}", other),
    };
    assert_eq!(first.get("resourceId"), Some(&JsonVal::Int(100)));
    assert_eq!(first.get("quantity"), Some(&JsonVal::Int(10)));
}

#[test]
fn test_restore_dict_tuple() {
    let array_data = vec![
        JsonVal::Int(1),
        arr(vec![JsonVal::Int(100), JsonVal::Int(10)]),
    ];
    let structure = vec![
        s("id"),
        arr(vec![
            s("cost"),
            JsonVal::Obj(obj(vec![(
                "__tuple__",
                arr(vec![s("resourceId"), s("quantity")]),
            )])),
        ]),
    ];
    let result = restore_dict(&array_data, &structure);
    assert_eq!(result.get("id"), Some(&JsonVal::Int(1)));
    let cost = match result.get("cost").unwrap() {
        JsonVal::Obj(m) => m,
        other => panic!("expected object, got {:?}", other),
    };
    assert_eq!(cost.get("resourceId"), Some(&JsonVal::Int(100)));
    assert_eq!(cost.get("quantity"), Some(&JsonVal::Int(10)));
}

#[test]
fn test_restore_compact_data() {
    let data = obj(vec![
        ("id", arr(vec![JsonVal::Int(1), JsonVal::Int(2), JsonVal::Int(3)])),
        ("name", arr(vec![s("a"), s("b"), s("c")])),
    ]);
    let result = restore_compact_data(&data);
    assert_eq!(result.len(), 3);
    assert_eq!(result[0].get("id"), Some(&JsonVal::Int(1)));
    assert_eq!(result[0].get("name"), Some(&s("a")));
}

#[test]
fn test_restore_compact_data_with_enum() {
    let data = obj(vec![
        ("id", arr(vec![JsonVal::Int(1), JsonVal::Int(2)])),
        ("status", arr(vec![JsonVal::Int(0), JsonVal::Int(1)])),
        (
            "__ENUM__",
            JsonVal::Obj(obj(vec![("status", arr(vec![s("inactive"), s("active")]))])),
        ),
    ]);
    let result = restore_compact_data(&data);
    assert_eq!(result.len(), 2);
    assert_eq!(result[0].get("status"), Some(&s("inactive")));
    assert_eq!(result[1].get("status"), Some(&s("active")));
}

#[test]
fn test_restorer_passthrough() {
    let master = obj(vec![
        ("gameSettings", arr(vec![JsonVal::Int(1)])),
        ("musicList", s("unchanged")),
    ]);
    let structures = obj(vec![("somethingElse", arr(vec![s("id")]))]);
    let restored = nuverse_master_restorer(&master, &structures).unwrap();
    assert_eq!(restored, master);
}

#[test]
fn test_restorer_expands_compact_tables() {
    let master = obj(vec![(
        "compactCharacters",
        JsonVal::Obj(obj(vec![
            ("id", arr(vec![JsonVal::Int(1), JsonVal::Int(2)])),
            ("name", arr(vec![s("x"), s("y")])),
        ])),
    )]);
    let structures = JsonMap::new();
    let restored = nuverse_master_restorer(&master, &structures).unwrap();
    // The packed form stays, and the expanded rows appear decapitalised.
    assert!(restored.get("compactCharacters").is_some());
    let rows = match restored.get("characters").unwrap() {
        JsonVal::Arr(items) => items,
        other => panic!("expected array, got {:?}", other),
    };
    assert_eq!(rows.len(), 2);
    let first = match &rows[0] {
        JsonVal::Obj(m) => m,
        other => panic!("expected object, got {:?}", other),
    };
    assert_eq!(first.get("id"), Some(&JsonVal::Int(1)));
    assert_eq!(first.get("name"), Some(&s("x")));
}

#[test]
fn test_event_cards_merge_sorted_unique() {
    // The eventCards entry mixes packed rows (restored against the
    // structure) and raw object rows. A raw row whose cardId already
    // exists among the restored rows is dropped, and the rows are stable-
    // sorted ascending by cardId (rows without one sort as zero).
    let raw_card_1 = JsonVal::Obj(obj(vec![("cardId", JsonVal::Int(1))]));
    let raw_card_3_dup = JsonVal::Obj(obj(vec![
        ("cardId", JsonVal::Int(3)),
        ("stale", JsonVal::Bool(true)),
    ]));
    let packed_card_3 = arr(vec![JsonVal::Int(3), s("fresh")]);
    let master = obj(vec![(
        "eventCards",
        arr(vec![packed_card_3, raw_card_1, raw_card_3_dup]),
    )]);
    let structures = obj(vec![("eventCards", arr(vec![s("cardId"), s("flavor")]))]);
    let restored = nuverse_master_restorer(&master, &structures).unwrap();
    let cards = match restored.get("eventCards").unwrap() {
        JsonVal::Arr(items) => items,
        other => panic!("expected array, got {:?}", other),
    };
    // The packed source row carries no cardId of its own, so it survives
    // the merge and sorts first; the object rows follow, unique and
    // ascending, with the restored row shadowing the stale raw duplicate.
    assert_eq!(cards.len(), 3);
    assert_eq!(cards[0], arr(vec![JsonVal::Int(3), s("fresh")]));
    let ids: Vec<i64> = cards[1..]
        .iter()
        .map(|c| match c {
            JsonVal::Obj(m) => match m.get("cardId") {
                Some(JsonVal::Int(n)) => *n,
                other => panic!("expected cardId, got {:?}", other),
            },
            other => panic!("expected object, got {:?}", other),
        })
        .collect();
    assert_eq!(ids, vec![1, 3]);
    let card3 = match &cards[2] {
        JsonVal::Obj(m) => m,
        other => panic!("expected object, got {:?}", other),
    };
    assert_eq!(card3.get("flavor"), Some(&s("fresh")));
    assert_eq!(card3.get("stale"), None);
}

#[test]
fn test_restore_compact_enum_out_of_range_is_null() {
    // In an enum column, an out-of-range index and a non-integer cell both
    // become null; nulls stay null.
    let data = obj(vec![
        (
            "status",
            arr(vec![JsonVal::Int(0), JsonVal::Int(9), s("verbatim"), JsonVal::Null]),
        ),
        (
            "__ENUM__",
            JsonVal::Obj(obj(vec![("status", arr(vec![s("inactive"), s("active")]))])),
        ),
    ]);
    let result = restore_compact_data(&data);
    assert_eq!(result.len(), 4);
    assert_eq!(result[0].get("status"), Some(&s("inactive")));
    assert_eq!(result[1].get("status"), Some(&JsonVal::Null));
    assert_eq!(result[2].get("status"), Some(&JsonVal::Null));
    assert_eq!(result[3].get("status"), Some(&JsonVal::Null));
}

#[test]
fn test_event_cards_merge_across_forms() {
    // A bundle holding eventCards in both the compact and the raw form
    // yields one merged list: compact-derived rows win on a shared cardId,
    // raw rows with new ids join, and the result is sorted ascending.
    let compact = JsonVal::Obj(obj(vec![(
        "cardId",
        arr(vec![JsonVal::Int(2), JsonVal::Int(4)]),
    )]));
    let raw = arr(vec![
        JsonVal::Obj(obj(vec![("cardId", JsonVal::Int(1))])),
        JsonVal::Obj(obj(vec![
            ("cardId", JsonVal::Int(4)),
            ("stale", JsonVal::Bool(true)),
        ])),
    ]);
    let master = obj(vec![
        ("compactEventCards", compact.dup()),
        ("eventCards", raw.dup()),
    ]);
    let restored = nuverse_master_restorer(&master, &JsonMap::new()).unwrap();
    assert_merged_cards(&restored);
    // The same bundle with the raw form first merges identically.
    let master_raw_first = obj(vec![
        ("eventCards", raw),
        ("compactEventCards", compact),
    ]);
    let restored = nuverse_master_restorer(&master_raw_first, &JsonMap::new()).unwrap();
    assert_merged_cards(&restored);
}

fn assert_merged_cards(restored: &JsonMap) {
    let cards = match restored.get("eventCards").unwrap() {
        JsonVal::Arr(items) => items,
        other => panic!("expected array, got {:?}", other),
    };
    let ids: Vec<i64> = cards
        .iter()
        .map(|c| match c {
            JsonVal::Obj(m) => match m.get("cardId") {
                Some(JsonVal::Int(n)) => *n,
                other => panic!("expected cardId, got {:?}", other),
            },
            other => panic!("expected object, got {:?}", other),
        })
        .collect();
    assert_eq!(ids, vec![1, 2, 4]);
    let card4 = match &cards[2] {
        JsonVal::Obj(m) => m,
        other => panic!("expected object, got {:?}", other),
    };
    // The compact-derived row shadows the stale raw duplicate.
    assert_eq!(card4.get("stale"), None);
}
