use domain::entry::parse_name;
use domain::iana::{Class, Rtype};
use domain::name::DName;
use domain::rdata::{MasterRecord, MasterRecordData};
use domain::rrset::{Records, ZoneError};
use domain::zone::{Entry, Zone};
use domain::zones::{AuthoritativeZones, Outcome, Question};

fn abs(s: &str) -> DName {
    parse_name(&s.as_bytes().to_vec(), &None).unwrap()
}

fn rel(s: &str) -> DName {
    if s.is_empty() {
        return DName::root();
    }
    parse_name(&s.as_bytes().to_vec(), &Some(DName::root())).unwrap()
}

fn a(x: u8, y: u8, z: u8, w: u8) -> MasterRecordData {
    MasterRecordData::A([x, y, z, w])
}

fn add_zone(zones: &mut AuthoritativeZones, name: &str, records: Vec<(&str, MasterRecordData)>) {
    let mut zone = Zone::new();
    for (owner, data) in records {
        zone.add_record(&rel(owner), 3600, data).unwrap();
    }
    zones.add_zone(&abs(name), Class::In, zone).unwrap();
}

fn first_a(zones: &AuthoritativeZones, name: &str, qtype: Rtype) -> [u8; 4] {
    let question = Question::new(abs(name), qtype, Class::In);
    match zones.query(&question).unwrap() {
        Entry::Authoritative(x) => match &x.unwrap().as_slice()[0] {
            MasterRecordData::A(addr) => *addr,
            _ => panic!("wrong record type"),
        },
        _ => panic!("not an authoritative entry"),
    }
}

fn labels(n: &DName) -> Vec<Vec<u8>> {
    (0..n.len()).map(|i| n.label(i).clone()).collect()
}

#[test]
fn test() {
    let mut zones = AuthoritativeZones::new();
    add_zone(&mut zones, "one.one.example.com.",
             vec![("", a(127, 0, 0, 1)), ("www", a(127, 0, 0, 2))]);
    add_zone(&mut zones, "two.one.example.com.", vec![]);
    add_zone(&mut zones, "three.example.com.", vec![]);
    assert_eq!(first_a(&zones, "www.one.one.example.com.", Rtype::A), [127, 0, 0, 2]);
}

#[test]
fn wildcard_answers_missing_child() {
    let mut zones = AuthoritativeZones::new();
    add_zone(&mut zones, "example.", vec![("*.a", a(10, 0, 0, 1))]);
    assert_eq!(first_a(&zones, "x.a.example.", Rtype::A), [10, 0, 0, 1]);
    let question = Question::new(abs("a.example."), Rtype::A, Class::In);
    match zones.query(&question) {
        Some(Entry::Authoritative(None)) => {}
        _ => panic!("expected an empty non-terminal"),
    }
}

#[test]
fn wildcard_not_used_below_existing_name() {
    let mut zones = AuthoritativeZones::new();
    add_zone(&mut zones, "example.",
             vec![("*.a", a(10, 0, 0, 1)), ("c.b.a", a(10, 0, 0, 3))]);
    let question = Question::new(abs("b.a.example."), Rtype::A, Class::In);
    match zones.query(&question) {
        Some(Entry::Authoritative(None)) => {}
        _ => panic!("the wildcard must not answer for an empty non-terminal"),
    }
    let question = Question::new(abs("q.b.a.example."), Rtype::A, Class::In);
    assert!(zones.query(&question).is_none());
}

#[test]
fn wildcard_matches_case_insensitively() {
    let mut zones = AuthoritativeZones::new();
    add_zone(&mut zones, "Example.", vec![("WWW", a(1, 2, 3, 4))]);
    assert_eq!(first_a(&zones, "www.EXAMPLE.", Rtype::A), [1, 2, 3, 4]);
}

#[test]
fn delegation_cut() {
    let mut zone = Zone::new();
    zone.add_cut(&rel("sub")).unwrap();
    zone.add_cut_ns(&rel("sub"), 3600, abs("ns.other.")).unwrap();
    let mut zones = AuthoritativeZones::new();
    zones.add_zone(&abs("example."), Class::In, zone).unwrap();
    let question = Question::new(abs("anything.sub.example."), Rtype::A, Class::In);
    match zones.query(&question) {
        Some(Entry::Cut(cut)) => {
            assert_eq!(cut.ns().len(), 1);
            assert_eq!(cut.ns().ttl(), 3600);
            assert_eq!(labels(&cut.ns().as_slice()[0]), vec![b"ns".to_vec(), b"other".to_vec()]);
        }
        _ => panic!("expected a referral"),
    }
}

#[test]
fn cut_and_records_conflict() {
    let mut zone = Zone::new();
    zone.add_cut_ns(&rel("sub"), 3600, abs("ns.other.")).unwrap();
    assert_eq!(zone.add_record(&rel("sub"), 3600, a(1, 1, 1, 1)), Err(ZoneError::CutConflict));
    zone.add_record(&rel("www"), 3600, a(1, 1, 1, 1)).unwrap();
    assert_eq!(zone.add_cut(&rel("www")), Err(ZoneError::AuthConflict));
    assert_eq!(zone.add_cut_ns(&rel("www"), 3600, abs("ns.other.")), Err(ZoneError::AuthConflict));
    assert_eq!(zone.add_cut_ns(&rel("sub"), 60, abs("ns2.other.")), Err(ZoneError::TtlMismatch));
    // an existing cut is left as it is
    assert_eq!(zone.add_cut(&rel("sub")), Ok(()));
    let mut zones = AuthoritativeZones::new();
    zones.add_zone(&abs("example."), Class::In, zone).unwrap();
    match zones.query(&Question::new(abs("sub.example."), Rtype::A, Class::In)) {
        Some(Entry::Cut(cut)) => assert_eq!(cut.ns().len(), 1),
        _ => panic!("expected the cut"),
    }
}

#[test]
fn ttl_mismatch() {
    let mut records = Records::new();
    records.add_record(3600, a(10, 0, 0, 1)).unwrap();
    assert_eq!(records.add_record(7200, a(10, 0, 0, 2)), Err(ZoneError::TtlMismatch));
    let set = records.get(Rtype::A).unwrap();
    assert_eq!(set.len(), 1);
    assert_eq!(set.ttl(), 3600);
    records.add_record(3600, a(10, 0, 0, 3)).unwrap();
    assert_eq!(records.get(Rtype::A).unwrap().len(), 2);
    assert!(records.get(Rtype::Mx).is_none());
}

#[test]
fn ttl_zero_is_a_real_ttl() {
    let mut records = Records::new();
    records.add_record(0, a(10, 0, 0, 1)).unwrap();
    assert_eq!(records.add_record(5, a(10, 0, 0, 2)), Err(ZoneError::TtlMismatch));
}

#[test]
fn add_then_find_gives_the_zone() {
    let mut zones = AuthoritativeZones::new();
    add_zone(&mut zones, "example.com.", vec![("", a(9, 9, 9, 9))]);
    let (zone, rest) = zones.find(Class::In, &abs("example.com.")).unwrap();
    assert!(rest.is_empty());
    match zone.query(&rest, Rtype::A) {
        Some(Entry::Authoritative(Some(set))) => assert_eq!(set.len(), 1),
        _ => panic!("expected the apex records"),
    }
}

#[test]
fn find_picks_deepest_apex() {
    let mut zones = AuthoritativeZones::new();
    add_zone(&mut zones, "example.com.", vec![("www.sub", a(1, 1, 1, 1))]);
    add_zone(&mut zones, "sub.example.com.", vec![("www", a(2, 2, 2, 2))]);
    let (_, rest) = zones.find(Class::In, &abs("www.sub.example.com.")).unwrap();
    assert_eq!(rest.len(), 1);
    assert_eq!(first_a(&zones, "www.sub.example.com.", Rtype::A), [2, 2, 2, 2]);
    let (_, rest) = zones.find(Class::In, &abs("x.y.example.com.")).unwrap();
    assert_eq!(rest.len(), 2);
    assert!(zones.find(Class::In, &abs("example.org.")).is_none());
    assert!(zones.find(Class::Ch, &abs("example.com.")).is_none());
}

#[test]
fn zone_exists() {
    let mut zones = AuthoritativeZones::new();
    zones.add_zone(&abs("example."), Class::In, Zone::new()).unwrap();
    assert_eq!(zones.add_zone(&abs("EXAMPLE."), Class::In, Zone::new()), Err(ZoneError::ZoneExists));
    zones.add_zone(&abs("example."), Class::Ch, Zone::new()).unwrap();
    assert_eq!(zones.add_zone(&abs("example."), Class::Ch, Zone::new()), Err(ZoneError::ZoneExists));
}

#[test]
fn query_nxdomain_and_nodata() {
    let mut zones = AuthoritativeZones::new();
    add_zone(&mut zones, "example.", vec![("www", a(1, 2, 3, 4))]);
    let question = Question::new(abs("nope.example."), Rtype::A, Class::In);
    assert!(zones.query(&question).is_none());
    let question = Question::new(abs("www.example."), Rtype::Mx, Class::In);
    match zones.query(&question) {
        Some(Entry::Authoritative(None)) => {}
        _ => panic!("expected no data"),
    }
    let question = Question::new(abs("www.example."), Rtype::A, Class::Hs);
    assert!(zones.query(&question).is_none());
}

fn record(owner: &str, class: Class, ttl: u32, data: MasterRecordData) -> Result<MasterRecord, ()> {
    Ok(MasterRecord { owner: abs(owner), class, ttl, rdata: data })
}

#[test]
fn load_zone_installs_records() {
    let mut zones = AuthoritativeZones::new();
    let records = vec![
        record("example.", Class::In, 60, a(1, 1, 1, 1)),
        record("www.example.", Class::In, 60, a(2, 2, 2, 2)),
    ];
    zones.load_zone(&abs("example."), Class::In, records).unwrap();
    assert_eq!(first_a(&zones, "www.example.", Rtype::A), [2, 2, 2, 2]);
    assert_eq!(first_a(&zones, "example.", Rtype::A), [1, 1, 1, 1]);
}

#[test]
fn load_zone_rejects_on_any_error() {
    let mut zones = AuthoritativeZones::new();
    let records = vec![
        record("www.example.", Class::In, 60, a(2, 2, 2, 2)),
        record("www.other.", Class::In, 60, a(3, 3, 3, 3)),
        record("x.example.", Class::Ch, 60, a(3, 3, 3, 3)),
        Err(()),
        record("www.example.", Class::In, 30, a(4, 4, 4, 4)),
    ];
    let errs = zones.load_zone(&abs("example."), Class::In, records).unwrap_err();
    assert_eq!(errs, vec![ZoneError::OwnerNotInZone, ZoneError::ClassMismatch,
                          ZoneError::ReadFailed, ZoneError::TtlMismatch]);
    assert!(zones.find(Class::In, &abs("www.example.")).is_none());
    let again: Vec<Result<MasterRecord, ()>> = vec![];
    zones.load_zone(&abs("example."), Class::In, again).unwrap();
    let twice: Vec<Result<MasterRecord, ()>> = vec![];
    assert_eq!(zones.load_zone(&abs("example."), Class::In, twice), Err(vec![ZoneError::ZoneExists]));
}

#[test]
fn strip_suffix_ignores_case() {
    let owner = abs("www.Example.COM.");
    let r = owner.strip_suffix(&abs("example.com.")).unwrap();
    assert_eq!(labels(&r), vec![b"www".to_vec()]);
    assert!(owner.strip_suffix(&abs("example.org.")).is_err());
}

#[test]
fn respond_outcomes() {
    let mut zone = Zone::new();
    zone.add_record(&rel("www"), 60, a(1, 2, 3, 4)).unwrap();
    zone.add_cut_ns(&rel("sub"), 60, abs("ns.other.")).unwrap();
    let mut zones = AuthoritativeZones::new();
    zones.add_zone(&abs("example."), Class::In, zone).unwrap();
    let q = |n: &str, t: Rtype| Question::new(abs(n), t, Class::In);
    assert!(matches!(zones.respond(None), Outcome::FormErr));
    assert!(matches!(zones.respond(Some(&q("www.other.", Rtype::A))), Outcome::Refused));
    assert!(matches!(zones.respond(Some(&q("nope.example.", Rtype::A))), Outcome::NxDomain));
    assert!(matches!(zones.respond(Some(&q("www.example.", Rtype::Txt))), Outcome::NoData));
    assert!(matches!(zones.respond(Some(&q("a.sub.example.", Rtype::A))), Outcome::Referral(_)));
    match zones.respond(Some(&q("WWW.example.", Rtype::A))) {
        Outcome::Answer(set) => assert_eq!(set.ttl(), 60),
        other => panic!("expected an answer, got {:?}", other),
    }
}

#[test]
fn add_cut_makes_an_empty_cut() {
    let mut zone = Zone::new();
    zone.add_cut(&rel("deleg")).unwrap();
    let mut zones = AuthoritativeZones::new();
    zones.add_zone(&abs("example."), Class::In, zone).unwrap();
    match zones.query(&Question::new(abs("x.deleg.example."), Rtype::A, Class::In)) {
        Some(Entry::Cut(cut)) => {
            assert_eq!(cut.ns().len(), 0);
            assert_eq!(cut.glue().len(), 0);
        }
        _ => panic!("expected the cut"),
    }
}
