use pretty_dns::cache::{Cache, CacheData};
use pretty_dns::compression::{CompressionData, CompressionType, DataType};
use pretty_dns::qtype::QType;
use pretty_dns::resource::Resource;

fn sample_resource(ttl: u32) -> Resource {
    Resource {
        name: CompressionData::new(
            vec![
                DataType::Raw(vec![103, 111, 111, 103, 108, 101]),
                DataType::Raw(vec![99, 111, 109]),
            ],
            CompressionType::Domain,
        ),
        _type: QType::A,
        class: 1,
        ttl,
        rdlength: 4,
        rdata: vec![172, 217, 25, 238],
    }
}

#[test]
fn test_resolve_none() {
    let mut c = Cache::new();
    let domain = "example.com.".to_owned();
    let list = c.resolve(domain, QType::A);
    assert_eq!(list, None);
}

#[test]
fn test_resolve_some() {
    let mut c = Cache::new();
    let domain = "test.example.com.".to_owned();
    let resource = sample_resource(299);
    c.cache(domain.clone(), QType::A, &vec![resource], &vec![], &vec![])
        .unwrap();

    let list = c.resolve(domain, QType::A);
    assert!(list.is_some());
}

#[test]
fn cache_test_resolve_none() {
    let mut c = Cache::new();
    let domain = "example.com.".to_owned();
    let list = c.resolve(domain, QType::A);
    assert_eq!(list, None);
}

#[test]
fn cache_test_resolve_some() {
    let mut c = Cache::new();
    let domain = "test.example.com.".to_owned();
    let resource = sample_resource(299);
    c.cache(domain.clone(), QType::A, &vec![resource], &vec![], &vec![])
        .unwrap();

    let list = c.resolve(domain, QType::A);
    assert!(list.is_some());
}

// Storing a record with TTL 299 and looking it up 10 seconds later yields
// TTL 289; at age 299 the entry is expired, evicted, and stays gone.
#[test]
fn ttl_decay_and_expiry() {
    let mut c = Cache::new();
    let domain = "a.com.".to_owned();
    c.store_at(
        domain.clone(),
        QType::A,
        &vec![sample_resource(299)],
        &vec![],
        &vec![],
        1000,
    )
    .unwrap();

    let hit = c.resolve_at(&domain, QType::A, 1010).unwrap();
    assert_eq!(hit.answer.len(), 1);
    assert_eq!(hit.answer[0].ttl, 289);

    // the stored record is untouched by the read: a later read decays from
    // the original store time, not from the previous read
    let hit2 = c.resolve_at(&domain, QType::A, 1020).unwrap();
    assert_eq!(hit2.answer[0].ttl, 279);

    // at age 299 the record is expired and evicted
    assert_eq!(c.resolve_at(&domain, QType::A, 1299), None);
    // gone even for a lookup at an age it would have survived
    assert_eq!(c.resolve_at(&domain, QType::A, 1001), None);
}

// A key is (domain, type): a record stored under (a.com., A) is invisible
// under (a.com., NS) and under (b.com., A).
#[test]
fn key_isolation() {
    let mut c = Cache::new();
    c.store_at(
        "a.com.".to_owned(),
        QType::A,
        &vec![sample_resource(299)],
        &vec![],
        &vec![],
        1000,
    )
    .unwrap();

    assert_eq!(c.resolve_at(&"a.com.".to_owned(), QType::NS, 1001), None);
    assert_eq!(c.resolve_at(&"b.com.".to_owned(), QType::A, 1001), None);
    assert!(c.resolve_at(&"a.com.".to_owned(), QType::A, 1001).is_some());
}

// A fresh store for the same key overwrites the old entry outright.
#[test]
fn store_overwrites() {
    let mut c = Cache::new();
    let domain = "a.com.".to_owned();
    c.store_at(
        domain.clone(),
        QType::A,
        &vec![sample_resource(100)],
        &vec![],
        &vec![],
        1000,
    )
    .unwrap();
    c.store_at(
        domain.clone(),
        QType::A,
        &vec![sample_resource(300)],
        &vec![],
        &vec![],
        2000,
    )
    .unwrap();
    let hit = c.resolve_at(&domain, QType::A, 2010).unwrap();
    assert_eq!(hit.answer[0].ttl, 290);
}

// All three sections decay on read; sections other than the answer
// saturate at zero instead of underflowing.
#[test]
fn decay_saturates() {
    let mut c = Cache::new();
    let domain = "a.com.".to_owned();
    c.store_at(
        domain.clone(),
        QType::A,
        &vec![sample_resource(299)],
        &vec![sample_resource(5)],
        &vec![],
        1000,
    )
    .unwrap();
    let hit: CacheData = c.resolve_at(&domain, QType::A, 1010).unwrap();
    assert_eq!(hit.answer[0].ttl, 289);
    assert_eq!(hit.authority[0].ttl, 0);
}
