use domain::entry::{parse_class, parse_name, parse_u32, unescape_word};
use domain::iana::{Class, Rtype};
use domain::name::DName;
use domain::rdata::MasterRecordData;
use domain::reader::{resolve_include, FileReaderIter, FileStep, ReadError, Reader, ReaderItem};
use domain::scan::SyntaxError;

const ISI: &[u8] = b"$ORIGIN ISI.EDU.
$TTL 86400
@   IN  SOA     VENERA      Action\\.domains (
                                 20     ; SERIAL
                                 7200   ; REFRESH
                                 600    ; RETRY
                                 3600000; EXPIRE
                                 60)    ; MINIMUM

        NS      A.ISI.EDU.
        NS      VENERA
        NS      VAXA
        MX      10      VENERA
        MX      20      VAXA
   
A       A       26.3.0.103

VENERA  A       10.1.0.52
        A       128.9.0.32

VAXA    A       10.2.0.27
        A       128.9.0.33


$INCLUDE <SUBSYS>ISI-MAILBOXES.TXT";

fn labels(n: &DName) -> Vec<Vec<u8>> {
    (0..n.len()).map(|i| n.label(i).clone()).collect()
}

fn words(s: &str) -> Vec<Vec<u8>> {
    s.split('.').filter(|l| !l.is_empty()).map(|l| l.as_bytes().to_vec()).collect()
}

fn read_all(text: &[u8]) -> Vec<Result<ReaderItem, domain::scan::ScanError>> {
    let mut reader = Reader::create(text.to_vec());
    let mut out = Vec::new();
    loop {
        match reader.next_record() {
            Ok(Some(item)) => out.push(Ok(item)),
            Ok(None) => break,
            Err(e) => {
                out.push(Err(e));
                break;
            }
        }
    }
    out
}

#[test]
fn print() {
    for item in read_all(ISI) {
        match item {
            Ok(item) => println!("{:?}", item),
            Err(err) => println!("{}:{}:  {:?}", err.pos.line, err.pos.col, err.error),
        }
    }
}

#[test]
fn reader_loads_soa() {
    let items = read_all(ISI);
    let mut soas = 0;
    for item in &items {
        if let Ok(ReaderItem::Record(r)) = item {
            if let MasterRecordData::Soa(soa) = &r.rdata {
                soas += 1;
                assert_eq!(labels(&r.owner), words("ISI.EDU"));
                assert_eq!(r.ttl, 86400);
                assert_eq!(r.class, Class::In);
                assert_eq!(labels(&soa.mname), words("VENERA.ISI.EDU"));
                assert_eq!(labels(&soa.rname),
                           vec![b"Action.domains".to_vec(), b"ISI".to_vec(), b"EDU".to_vec()]);
                assert_eq!((soa.serial, soa.refresh, soa.retry, soa.expire, soa.minimum),
                           (20, 7200, 600, 3600000, 60));
            }
        }
    }
    assert_eq!(soas, 1);
    assert_eq!(items.len(), 12);
    match &items[3] {
        Ok(ReaderItem::Record(r)) => {
            assert_eq!(labels(&r.owner), words("ISI.EDU"));
            assert_eq!(r.rdata.rtype(), Rtype::Ns);
        }
        _ => panic!("expected an NS record"),
    }
    match &items[10] {
        Ok(ReaderItem::Record(r)) => {
            assert_eq!(labels(&r.owner), words("VAXA.ISI.EDU"));
            match r.rdata {
                MasterRecordData::A(addr) => assert_eq!(addr, [128, 9, 0, 33]),
                _ => panic!("expected an A record"),
            }
        }
        _ => panic!("expected a record"),
    }
    match &items[11] {
        Ok(ReaderItem::Include { path, origin }) => {
            assert_eq!(path, &b"<SUBSYS>ISI-MAILBOXES.TXT".to_vec());
            assert!(origin.is_none());
        }
        _ => panic!("expected an include"),
    }
}

#[test]
fn ttl_inheritance() {
    let items = read_all(b"$ORIGIN example.\n$TTL 3600\nfoo IN A 10.0.0.1\nbar 60 A 10.0.0.2\n");
    match &items[0] {
        Ok(ReaderItem::Record(r)) => {
            assert_eq!(r.ttl, 3600);
            assert_eq!(labels(&r.owner), words("foo.example"));
        }
        _ => panic!("expected a record"),
    }
    match &items[1] {
        Ok(ReaderItem::Record(r)) => {
            assert_eq!(r.ttl, 60);
            assert_eq!(r.class, Class::In);
        }
        _ => panic!("expected a record"),
    }
}

#[test]
fn class_before_ttl_and_inherited_class() {
    let items = read_all(b"$ORIGIN example.\nfoo CH 30 A 10.0.0.1\n     40 A 10.0.0.2\n");
    match (&items[0], &items[1]) {
        (Ok(ReaderItem::Record(r)), Ok(ReaderItem::Record(s))) => {
            assert_eq!((r.class, r.ttl), (Class::Ch, 30));
            assert_eq!((s.class, s.ttl), (Class::Ch, 40));
            assert_eq!(labels(&s.owner), words("foo.example"));
        }
        _ => panic!("expected two records"),
    }
}

fn first_error(text: &[u8]) -> SyntaxError {
    for item in read_all(text) {
        if let Err(e) = item {
            return e.error;
        }
    }
    panic!("no error")
}

#[test]
fn syntax_errors() {
    assert_eq!(first_error(b"foo 60 A 10.0.0.1\n"), SyntaxError::NoOrigin);
    assert_eq!(first_error(b"foo. A 10.0.0.1\n"), SyntaxError::NoTtl);
    assert_eq!(first_error(b"foo. 60 BOGUS x\n"), SyntaxError::UnknownType);
    assert_eq!(first_error(b"foo. 60 A ( 10.0.0.1\n"), SyntaxError::UnclosedParen);
    assert_eq!(first_error(b"foo. 60 A ) 10.0.0.1\n"), SyntaxError::BadParen);
    assert_eq!(first_error(b"foo. 60 TXT \"abc\n"), SyntaxError::UnterminatedQuote);
    assert_eq!(first_error(b"foo. 60 TXT abc\\"), SyntaxError::EscapeAtEof);
    assert_eq!(first_error(b"foo. 60 TXT \\999\n"), SyntaxError::BadEscape);
    assert_eq!(first_error(b"a..b. 60 A 10.0.0.1\n"), SyntaxError::BadLabel);
    assert_eq!(first_error(b"   60 A 10.0.0.1\n"), SyntaxError::NoOwner);
    assert_eq!(first_error(b"foo. 60 A 10.0.0.256\n"), SyntaxError::BadRdata);
    assert_eq!(first_error(b"foo. 60 MX 70000 bar.\n"), SyntaxError::BadNumber);
    assert_eq!(first_error(b"$TTL\n"), SyntaxError::BadDirective);
    let long = format!("{}. 60 A 1.2.3.4\n", vec!["abcdefghij"; 30].join("."));
    assert_eq!(first_error(long.as_bytes()), SyntaxError::NameTooLong);
}

#[test]
fn error_is_sticky() {
    let mut reader = Reader::create(b"foo 60 A 10.0.0.1\nbar. 60 A 10.0.0.1\n".to_vec());
    assert!(reader.next_record().is_err());
    assert!(matches!(reader.next_record(), Ok(None)));
}

#[test]
fn comments_quotes_and_escapes() {
    let items = read_all(b"x. 1 TXT \"a b;c\" d\\065 ; comment\n");
    match &items[0] {
        Ok(ReaderItem::Record(r)) => match &r.rdata {
            MasterRecordData::Txt(strings) => {
                assert_eq!(strings, &vec![b"a b;c".to_vec(), b"dA".to_vec()]);
            }
            _ => panic!("expected TXT"),
        },
        _ => panic!("expected a record"),
    }
    assert_eq!(items.len(), 1);
}

#[test]
fn numbers_and_escapes() {
    assert_eq!(parse_u32(&b"4294967295".to_vec()), Some(4294967295));
    assert_eq!(parse_u32(&b"4294967296".to_vec()), None);
    assert_eq!(parse_u32(&b"".to_vec()), None);
    assert_eq!(parse_u32(&b"12a".to_vec()), None);
    assert_eq!(unescape_word(&b"a\\.b\\255".to_vec()), Some(vec![97, 46, 98, 255]));
    assert_eq!(unescape_word(&b"\\25".to_vec()), None);
}

#[test]
fn names() {
    let origin = Some(parse_name(&b"example.com.".to_vec(), &None).unwrap());
    let n = parse_name(&b"@".to_vec(), &origin).unwrap();
    assert_eq!(labels(&n), words("example.com"));
    let n = parse_name(&b"www".to_vec(), &origin).unwrap();
    assert_eq!(labels(&n), words("www.example.com"));
    let n = parse_name(&b".".to_vec(), &None).unwrap();
    assert_eq!(n.len(), 0);
    assert_eq!(parse_name(&b"@".to_vec(), &None).unwrap_err(), SyntaxError::NoOrigin);
    let long_label = vec![b'a'; 64];
    assert_eq!(parse_name(&long_label, &origin).unwrap_err(), SyntaxError::NameTooLong);
}

#[test]
fn include_paths() {
    assert_eq!(resolve_include(&b"/etc/zones/zone.txt".to_vec(), &b"sub/extra.txt".to_vec()),
               b"/etc/zones/sub/extra.txt".to_vec());
    assert_eq!(resolve_include(&b"zone.txt".to_vec(), &b"extra.txt".to_vec()), b"extra.txt".to_vec());
    assert_eq!(resolve_include(&b"/etc/zone.txt".to_vec(), &b"/abs.txt".to_vec()), b"/abs.txt".to_vec());
}

fn step_record(iter: &mut FileReaderIter) -> (Vec<Vec<u8>>, u32) {
    match iter.next_step() {
        FileStep::Record(r) => (labels(&r.owner), r.ttl),
        other => panic!("expected a record, got {:?}", other),
    }
}

#[test]
fn include_resolution() {
    let top = b"$ORIGIN example.\n$TTL 100\nfoo A 1.2.3.4\n$INCLUDE sub/extra.txt\n    A 1.2.3.5\n";
    let inner = b"$ORIGIN other.\n$TTL 200\nbar A 9.9.9.9\n";
    let mut iter = FileReaderIter::new(b"/etc/zones/zone.txt".to_vec(), top.to_vec());
    assert_eq!(step_record(&mut iter), (words("foo.example"), 100));
    match iter.next_step() {
        FileStep::Open { path, origin } => {
            assert_eq!(path, b"/etc/zones/sub/extra.txt".to_vec());
            assert!(origin.is_none());
            iter.push_file(path, inner.to_vec(), origin);
        }
        other => panic!("expected an include, got {:?}", other),
    }
    assert_eq!(step_record(&mut iter), (words("bar.other"), 200));
    assert_eq!(step_record(&mut iter), (words("foo.example"), 100));
    assert!(matches!(iter.next_step(), FileStep::Done));
    assert!(matches!(iter.next_step(), FileStep::Done));
}

#[test]
fn include_failures() {
    let mut iter = FileReaderIter::new(b"/z/top.txt".to_vec(), b"$INCLUDE missing.txt\n".to_vec());
    match iter.next_step() {
        FileStep::Open { path, .. } => {
            let err = iter.fail(path, ReadError::Io);
            assert_eq!(err.path(), &b"/z/missing.txt".to_vec());
            assert_eq!(err.error(), ReadError::Io);
        }
        other => panic!("expected an include, got {:?}", other),
    }
    assert!(matches!(iter.next_step(), FileStep::Done));
    let mut iter = FileReaderIter::new(b"/z/top.txt".to_vec(), b"x A 1.2.3.4\n".to_vec());
    match iter.next_step() {
        FileStep::Failed(err) => {
            assert_eq!(err.path(), &b"/z/top.txt".to_vec());
            assert!(matches!(err.error(), ReadError::Scan(_)));
        }
        other => panic!("expected an error, got {:?}", other),
    }
    assert!(matches!(iter.next_step(), FileStep::Done));
}

#[test]
fn include_cycle_is_cut_off() {
    let text = b"$INCLUDE self.txt\n";
    let mut iter = FileReaderIter::new(b"/z/self.txt".to_vec(), text.to_vec());
    let mut opened = 0;
    loop {
        match iter.next_step() {
            FileStep::Open { path, origin } => {
                opened += 1;
                iter.push_file(path, text.to_vec(), origin);
            }
            FileStep::Failed(err) => {
                assert_eq!(err.error(), ReadError::TooDeep);
                break;
            }
            other => panic!("unexpected step {:?}", other),
        }
    }
    assert_eq!(opened, domain::reader::MAX_INCLUDE_DEPTH - 1);
    assert!(matches!(iter.next_step(), FileStep::Done));
}

fn emit(items: &[Result<ReaderItem, domain::scan::ScanError>]) -> Vec<u8> {
    let mut out = Vec::new();
    for item in items {
        out.extend_from_slice(&item.as_ref().unwrap().to_text());
    }
    out
}

#[test]
fn emitted_records_read_back_the_same() {
    let first = read_all(ISI);
    let again = read_all(&emit(&first));
    assert_eq!(format!("{:?}", first), format!("{:?}", again));
    let text = b"$ORIGIN example.\n$TTL 60\n@ MX 10 mail\nmail A 192.0.2.1\nt TXT \"a \\\"q\\\" b\" \\200x\nweird\\.label CNAME x\\\\y.\n";
    let first = read_all(text);
    assert!(first.iter().all(|i| i.is_ok()));
    let emitted = emit(&first);
    let again = read_all(&emitted);
    assert_eq!(format!("{:?}", first), format!("{:?}", again));
    assert_eq!(emit(&again), emitted);
}

#[test]
fn record_text_form() {
    let items = read_all(b"www.example. 300 IN A 192.0.2.7\n");
    assert_eq!(items[0].as_ref().unwrap().to_text(), b"www.example. 300 IN A 192.0.2.7\n".to_vec());
    assert_eq!(domain::text::number_text(0), b"0".to_vec());
    assert_eq!(domain::text::number_text(4294967295), b"4294967295".to_vec());
}

#[test]
fn dotted_quads() {
    use_quad(b"192.0.2.1", Some([192, 0, 2, 1]));
    use_quad(b"01.2.3.4", Some([1, 2, 3, 4]));
    use_quad(b"1.2.3", None);
    use_quad(b"1.2.3.4.5", None);
    use_quad(b"256.1.1.1", None);
    use_quad(b"1..2.3", None);
    use_quad(b"1.2.3.0004", None);
}

fn use_quad(text: &[u8], want: Option<[u8; 4]>) {
    assert_eq!(domain::entry::parse_a(&text.to_vec()), want);
}

#[test]
fn name_text_form() {
    let origin = Some(DName::root());
    let n = parse_name(&b"Action\\.domains.ISI.EDU.".to_vec(), &None).unwrap();
    assert_eq!(n.to_text(), b"Action\\046domains.ISI.EDU.".to_vec());
    let back = parse_name(&n.to_text(), &origin).unwrap();
    assert_eq!(labels(&back), labels(&n));
    assert_eq!(DName::root().to_text(), b".".to_vec());
    let odd = parse_name(&b"a\\032b\\@.".to_vec(), &None).unwrap();
    assert_eq!(odd.to_text(), b"a\\032b\\064.".to_vec());
    assert_eq!(labels(&parse_name(&odd.to_text(), &None).unwrap()), vec![b"a b@".to_vec()]);
}

#[test]
fn top_path_is_the_file_being_read() {
    let mut iter = FileReaderIter::new(b"/z/top.txt".to_vec(), b"$INCLUDE in.txt\n".to_vec());
    assert_eq!(iter.top_path(), Some(b"/z/top.txt".to_vec()));
    match iter.next_step() {
        FileStep::Open { path, origin } => {
            assert_eq!(iter.top_path(), Some(b"/z/top.txt".to_vec()));
            iter.push_file(path, b"".to_vec(), origin);
            assert_eq!(iter.top_path(), Some(b"/z/in.txt".to_vec()));
        }
        other => panic!("expected an include, got {:?}", other),
    }
    assert!(matches!(iter.next_step(), FileStep::Done));
    assert_eq!(iter.top_path(), None);
}

#[test]
fn class_mnemonics_and_numbers() {

    assert_eq!(parse_class(&b"in".to_vec()), Some(Class::In));
    assert_eq!(parse_class(&b"NONE".to_vec()), Some(Class::NoneClass));
    assert_eq!(parse_class(&b"*".to_vec()), Some(Class::Any));
    assert_eq!(parse_class(&b"CLASS1".to_vec()), Some(Class::In));
    assert_eq!(parse_class(&b"class32".to_vec()), Some(Class::Int(32)));
    assert_eq!(parse_class(&b"CLASS65536".to_vec()), None);
    assert_eq!(parse_class(&b"CLASS".to_vec()), None);
    assert_eq!(parse_class(&b"XY".to_vec()), None);
    let items = read_all(b"foo. CLASS3 60 A 1.2.3.4\n");
    match &items[0] {
        Ok(ReaderItem::Record(r)) => assert_eq!(r.class, Class::Ch),
        _ => panic!("expected a record"),
    }
}
