use nfsview::ports::{parse_number, parse_ports, split, trim, NumberFault};

fn chars(s: &str) -> Vec<char> {
    s.chars().collect()
}

#[test]
fn ports_are_read() {
    assert_eq!(parse_ports("2049,20049").unwrap(), [2049, 20049]);
    assert_eq!(parse_ports("0").unwrap(), [0]);
    assert_eq!(parse_ports(" 1 ,\t2,\u{3000}+65535 ").unwrap(), [1, 2, 65535]);
}

#[test]
fn each_fault_has_its_message() {
    for (list, port, fault, rest) in [
        ("", "", NumberFault::Empty, "cannot parse integer from empty string"),
        ("1,,2", "", NumberFault::Empty, "cannot parse integer from empty string"),
        ("1, x", " x", NumberFault::InvalidDigit, "invalid digit found in string"),
        ("-1", "-1", NumberFault::InvalidDigit, "invalid digit found in string"),
        ("+", "+", NumberFault::InvalidDigit, "invalid digit found in string"),
        ("65536", "65536", NumberFault::TooLarge, "number too large to fit in target type"),
    ] {
        let e = parse_ports(list).unwrap_err();
        assert_eq!((e.port.as_str(), e.fault), (port, fault));
        assert_eq!(e.message(), format!("invalid port: {port}: {rest}"));
        assert_eq!(port.trim().parse::<u16>().unwrap_err().to_string(), rest);
    }
}

#[test]
fn numbers_are_read_as_the_standard_library_does() {
    for s in [
        "", "+", "-", "0", "+0", "-0", "00012", "12a", "a12", "99999999999999999999999", "65535", "65536",
        "655350", "65536x", "6553x6", "12345x", " 1", "1 ", "+-1", "++1", "４",
    ] {
        let ours = parse_number(&chars(s), 65535);
        match s.parse::<u16>() {
            Ok(n) => assert_eq!(ours, Ok(n as u64), "{s}"),
            Err(e) => {
                let text = match ours.unwrap_err() {
                    NumberFault::Empty => "cannot parse integer from empty string",
                    NumberFault::InvalidDigit => "invalid digit found in string",
                    NumberFault::TooLarge => "number too large to fit in target type",
                };
                assert_eq!(e.to_string(), text, "{s}");
            }
        }
    }
    assert_eq!(parse_number(&chars("18446744073709551615"), u64::MAX), Ok(u64::MAX));
    assert_eq!(parse_number(&chars("18446744073709551616"), u64::MAX), Err(NumberFault::TooLarge));
    assert_eq!(parse_number(&chars("4294967295"), 0xffff_ffff), Ok(0xffff_ffff));
    assert_eq!(parse_number(&chars("3"), 2), Err(NumberFault::TooLarge));
}

#[test]
fn white_space_is_trimmed() {
    for c in (0..=0x10_ffff).filter_map(char::from_u32) {
        let s: String = [c, 'a', c].iter().collect();
        let ours: String = trim(&chars(&s)).into_iter().collect();
        assert_eq!(ours, s.trim());
    }
    assert_eq!(trim(&chars("  ")), vec![]);
}

#[test]
fn texts_are_split() {
    for s in ["", ",", "a", "a,b", ",a,,b,", "é,ü"] {
        let ours: Vec<String> = split(&chars(s), ',').into_iter().map(|p| p.into_iter().collect()).collect();
        let theirs: Vec<String> = s.split(',').map(str::to_string).collect();
        assert_eq!(ours, theirs);
    }
}

#[test]
fn listed_ports_are_read_back() {
    let ports: Vec<u16> = vec![0, 7, 2049, 65535, 10];
    let list: Vec<String> = ports.iter().map(|p| p.to_string()).collect();
    assert_eq!(parse_ports(&list.join(",")).unwrap(), ports);
}
