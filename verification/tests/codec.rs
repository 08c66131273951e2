use bitbuffer::{BigEndian, BitReadBuffer, BitReadStream, BitWriteStream, LittleEndian};
use hvm_bitcode::book::Book;
use hvm_bitcode::net::Net;
use hvm_bitcode::scalars::{HVMRef, Tag, VarLenNumber};
use hvm_bitcode::stream::{BitReader, BitWriter, DecodeError, Endian};
use hvm_bitcode::tree::Tree;
use hvm_bitcode::wiring::Wiring;
use hvm_bitcode::{
    decode, decode_endian, decode_sized, decode_sized_endian, encode, encode_endian, BitRead,
    BitWrite,
};

fn var(name: &str) -> Tree {
    Tree::Var { nam: name.to_string() }
}

fn reference(name: &str) -> Tree {
    Tree::Ref { nam: name.to_string() }
}

fn u24(value: u32) -> Tree {
    Tree::Num { val: hvm::hvm::Numb::new_u24(value).0 }
}

fn i24(value: i32) -> Tree {
    Tree::Num { val: hvm::hvm::Numb::new_i24(value).0 }
}

fn f24(value: f32) -> Tree {
    Tree::Num { val: hvm::hvm::Numb::new_f24(value).0 }
}

fn con(fst: Tree, snd: Tree) -> Tree {
    Tree::Con { fst: Box::new(fst), snd: Box::new(snd) }
}

fn dup(fst: Tree, snd: Tree) -> Tree {
    Tree::Dup { fst: Box::new(fst), snd: Box::new(snd) }
}

fn opr(fst: Tree, snd: Tree) -> Tree {
    Tree::Opr { fst: Box::new(fst), snd: Box::new(snd) }
}

fn swi(fst: Tree, snd: Tree) -> Tree {
    Tree::Swi { fst: Box::new(fst), snd: Box::new(snd) }
}

fn net(root: Tree, redexes: Vec<(Tree, Tree)>) -> Net {
    Net { root, redexes }
}

/// `a & (a *) ~ (b b)`
fn small_net() -> Net {
    net(var("a"), vec![(con(var("a"), Tree::Era), con(var("b"), var("b")))])
}

/// `a & * ~ (b R) & (b a) ~ (R *)`
fn two_redex_net() -> Net {
    net(
        var("a"),
        vec![
            (Tree::Era, con(var("b"), var("R"))),
            (con(var("b"), var("a")), con(var("R"), Tree::Era)),
        ],
    )
}

/// `((a {a b}) b)`
fn y_combinator() -> Net {
    net(con(con(var("a"), dup(var("a"), var("b"))), var("b")), vec![])
}

fn net_cases() -> Vec<Net> {
    vec![
        net(Tree::Era, vec![]),
        net(Tree::Era, vec![(Tree::Era, Tree::Era)]),
        net(con(var("a"), var("a")), vec![]),
        two_redex_net(),
        net(
            con(var("a"), con(var("a"), var("b"))),
            vec![(con(var("b"), Tree::Era), con(var("c"), var("c")))],
        ),
        y_combinator(),
    ]
}

fn tree_cases() -> Vec<Tree> {
    vec![
        con(Tree::Era, Tree::Era),
        con(dup(Tree::Era, Tree::Era), Tree::Era),
        con(
            dup(Tree::Era, con(u24(123), con(u24(321), Tree::Era))),
            dup(reference("a"), con(Tree::Era, Tree::Era)),
        ),
        con(con(reference("foo"), Tree::Era), dup(Tree::Era, u24(123))),
        opr(i24(5), Tree::Era),
        opr(i24(-5), u24(3)),
        opr(f24(5.5), Tree::Era),
    ]
}

#[test]
fn test_big_endian() {
    let net = small_net();

    let bytes = encode_endian(&net, Endian::Big);
    let decoded_net: Net = decode_endian(&bytes, Endian::Big).unwrap();

    assert_eq!(net.normalize(), decoded_net.normalize());
}

#[test]
fn test_net_encoding() {
    for net in net_cases() {
        let net_string = format!("{:?}", net);

        let bytes = encode(&net);
        let decoded_net: Net = decode(&bytes).unwrap();

        assert_eq!(net.normalize(), decoded_net.normalize(), "{}", net_string);
    }
}

#[test]
fn test_varlen_number() {
    for n in 0..35 {
        let n = VarLenNumber(n);
        let bytes = encode(&n);
        let decoded_n: VarLenNumber = decode(&bytes).unwrap();
        assert_eq!(n, decoded_n);
    }
}

#[test]
fn test_tree_encoding() {
    for tree in tree_cases() {
        let bytes = encode(&tree.clone());
        let decoded_tree: Tree = decode(&bytes).unwrap();
        assert_eq!(tree, decoded_tree, "{:?}", tree);
    }
}

#[test]
fn test_wiring_encoding_single() {
    let wiring = Wiring::new(vec![(0, 1)]);

    let bytes = encode(&wiring);
    let decoded_wiring: Wiring = decode_sized(&bytes, wiring.connections.len()).unwrap();
    assert_eq!(wiring, decoded_wiring);
}

#[test]
fn test_wiring_encoding_complex() {
    let wiring = Wiring::new(vec![(0, 10), (1, 11), (2, 5), (3, 4), (6, 7), (8, 9)]);

    let bytes = encode(&wiring);
    let decoded_wiring: Wiring = decode_sized(&bytes, wiring.connections.len()).unwrap();
    assert_eq!(wiring, decoded_wiring);
}

#[test]
fn eraser_is_one_zero_byte() {
    assert_eq!(encode(&Tree::Era), vec![0x00]);
    assert_eq!(encode_endian(&Tree::Era, Endian::Big), vec![0x00]);
    assert_eq!(encode(&net(Tree::Era, vec![])), vec![0x08]);
}

#[test]
fn tags_have_their_codes() {
    assert_eq!(encode(&Tag::ERA), vec![0]);
    assert_eq!(encode(&Tag::VAR), vec![2]);
    assert_eq!(encode(&Tag::OPS), vec![4]);
    assert_eq!(encode(&Tag::MAT), vec![5]);
    assert_eq!(encode(&Tag::CON), vec![6]);
    assert_eq!(encode(&Tag::DUP), vec![7]);
    assert_eq!(encode(&Tag::NUM(VarLenNumber(0))), vec![0b1011]);
    assert_eq!(encode(&Tag::REF(HVMRef("a".to_string()))), vec![0b0000_1001, 0b0000_0011, 0]);
    assert_eq!(encode_endian(&Tag::CON, Endian::Big), vec![0b1100_0000]);
    assert_eq!(encode_endian(&Tag::REF(HVMRef(String::new())), Endian::Big), vec![0b0010_0000, 0]);
}

#[test]
fn tag_of_each_node() {
    assert_eq!(Tag::from(&Tree::Era), Tag::ERA);
    assert_eq!(Tag::from(&var("x")), Tag::VAR);
    assert_eq!(Tag::from(&reference("foo")), Tag::REF(HVMRef("foo".to_string())));
    assert_eq!(Tag::from(&Tree::Num { val: 7 }), Tag::NUM(VarLenNumber(7)));
    assert_eq!(Tag::from(&con(Tree::Era, Tree::Era)), Tag::CON);
    assert_eq!(Tag::from(&dup(Tree::Era, Tree::Era)), Tag::DUP);
    assert_eq!(Tag::from(&opr(Tree::Era, Tree::Era)), Tag::OPS);
    assert_eq!(Tag::from(&swi(Tree::Era, Tree::Era)), Tag::MAT);
}

#[test]
fn tags_round_trip() {
    let tags = vec![
        Tag::REF(HVMRef("main".to_string())),
        Tag::VAR,
        Tag::NUM(VarLenNumber(1234)),
        Tag::OPS,
        Tag::MAT,
        Tag::ERA,
        Tag::CON,
        Tag::DUP,
    ];
    for tag in tags {
        for endian in [Endian::Little, Endian::Big] {
            let decoded: Tag = decode_endian(&encode_endian(&tag, endian), endian).unwrap();
            assert_eq!(tag, decoded);
        }
    }
}

#[test]
fn gamma_codes_are_exact() {
    // 0 -> "1"
    assert_eq!(encode(&VarLenNumber(0)), vec![0b0000_0001]);
    assert_eq!(encode_endian(&VarLenNumber(0), Endian::Big), vec![0b1000_0000]);
    // 1 -> "010"
    assert_eq!(encode(&VarLenNumber(1)), vec![0b0000_0010]);
    // 2 -> "011"
    assert_eq!(encode(&VarLenNumber(2)), vec![0b0000_0110]);
    // 5 -> "00110"
    assert_eq!(encode(&VarLenNumber(5)), vec![0b0000_1100]);
    assert_eq!(encode_endian(&VarLenNumber(5), Endian::Big), vec![0b0011_0000]);
    // 15 -> "000010000"
    assert_eq!(encode(&VarLenNumber(15)), vec![0b0001_0000, 0]);
}

#[test]
fn gamma_width_is_twice_the_logarithm_plus_one() {
    let cases: [(u64, usize); 10] =
        [(0, 1), (1, 3), (2, 3), (3, 5), (6, 5), (7, 7), (8, 7), (15, 9), (16, 9), (254, 15)];
    for (n, width) in cases {
        assert_eq!(encode(&VarLenNumber(n)).len(), (width + 7) / 8, "{}", n);
        let mut stream = BitWriter::new(Endian::Little);
        VarLenNumber(n).write(&mut stream);
        VarLenNumber(0).write(&mut stream);
        let bytes = stream.into_bytes();
        assert_eq!(bytes.len(), (width + 1 + 7) / 8, "{}", n);
        let mut reader = BitReader::new(&bytes, Endian::Little);
        assert_eq!(VarLenNumber::read(&mut reader), Ok(VarLenNumber(n)));
        assert_eq!(reader.bits_left(), bytes.len() * 8 - width);
    }
}

#[test]
fn gamma_round_trips_at_the_edges() {
    for n in [0, 1, 2, 3, 7, 8, 15, 16, 34, 255, 256, u32::MAX as u64, (1 << 63) - 1, u64::MAX - 1]
    {
        for endian in [Endian::Little, Endian::Big] {
            let bytes = encode_endian(&VarLenNumber(n), endian);
            assert_eq!(decode_endian::<VarLenNumber>(&bytes, endian), Ok(VarLenNumber(n)));
        }
    }
}

#[test]
fn varlen_number_round_trips_up_to_34() {
    for n in 0..=34 {
        assert_eq!(decode::<VarLenNumber>(&encode(&VarLenNumber(n))), Ok(VarLenNumber(n)));
    }
}

#[test]
fn fixed_width_integers_follow_the_bit_order() {
    let mut little = BitWriter::new(Endian::Little);
    little.write_uint(0b101, 3);
    little.write_uint(0b0110, 4);
    little.write_bool(true);
    assert_eq!(little.into_bytes(), vec![0b1011_0101]);

    let mut big = BitWriter::new(Endian::Big);
    big.write_uint(0b101, 3);
    big.write_uint(0b0110, 4);
    big.write_bool(true);
    assert_eq!(big.into_bytes(), vec![0b1010_1101]);

    let mut reader = BitReader::new(&[0b1011_0101, 0xff], Endian::Little);
    assert_eq!(reader.read_uint(3), Ok(0b101));
    assert_eq!(reader.read_uint(4), Ok(0b0110));
    assert_eq!(reader.read_bool(), Ok(true));
    assert_eq!(reader.read_uint(0), Ok(0));
    assert_eq!(reader.bits_left(), 8);
    assert_eq!(reader.read_uint(9), Err(DecodeError::Truncated));
    assert_eq!(reader.read_uint(8), Ok(0xff));
    assert_eq!(reader.read_bool(), Err(DecodeError::Truncated));

    let mut reader = BitReader::new(&[0b1010_1101], Endian::Big);
    assert_eq!(reader.read_uint(3), Ok(0b101));
    assert_eq!(reader.read_uint(4), Ok(0b0110));
    assert_eq!(reader.read_bool(), Ok(true));
}

#[test]
fn wide_integers_round_trip() {
    for endian in [Endian::Little, Endian::Big] {
        let mut stream = BitWriter::new(endian);
        stream.write_bool(true);
        stream.write_uint(u64::MAX - 5, 64);
        stream.write_uint(0x1234_5678_9abc, 48);
        let bytes = stream.into_bytes();
        assert_eq!(bytes.len(), 15);
        let mut reader = BitReader::new(&bytes, endian);
        assert_eq!(reader.read_bool(), Ok(true));
        assert_eq!(reader.read_uint(64), Ok(u64::MAX - 5));
        assert_eq!(reader.read_uint(48), Ok(0x1234_5678_9abc));
    }
}

#[test]
fn single_wire_takes_no_bits() {
    let wiring = Wiring::new(vec![(0, 1)]);
    assert_eq!(encode(&wiring), Vec::<u8>::new());
    assert_eq!(encode(&Wiring::new(vec![])), Vec::<u8>::new());
    assert_eq!(decode_sized::<Wiring>(&[], 0), Ok(Wiring { connections: vec![] }));
    assert_eq!(decode_sized::<Wiring>(&[], 1), Ok(Wiring { connections: vec![(0, 1)] }));
}

#[test]
fn two_wires_take_two_bits() {
    // Ports 1, 2 and 3 are open after port 0: two bits name the partner.
    assert_eq!(encode(&Wiring::new(vec![(0, 1), (2, 3)])), vec![0b00]);
    assert_eq!(encode(&Wiring::new(vec![(0, 2), (1, 3)])), vec![0b01]);
    assert_eq!(encode(&Wiring::new(vec![(0, 3), (1, 2)])), vec![0b10]);
    assert_eq!(encode_endian(&Wiring::new(vec![(0, 2), (1, 3)]), Endian::Big), vec![0b0100_0000]);
    assert_eq!(
        decode_sized::<Wiring>(&[0b10], 2),
        Ok(Wiring { connections: vec![(0, 3), (1, 2)] })
    );
}

#[test]
fn six_wires_take_sixteen_bits() {
    let wiring = Wiring::new(vec![(0, 10), (1, 11), (2, 5), (3, 4), (6, 7), (8, 9)]);
    let bytes = encode(&wiring);
    assert_eq!(bytes.len(), 2);
    let mut stream = BitWriter::new(Endian::Little);
    wiring.write(&mut stream);
    stream.write_bool(true);
    let bytes = stream.into_bytes();
    assert_eq!(bytes.len(), 3);
    assert_eq!(bytes[2], 1);
    for endian in [Endian::Little, Endian::Big] {
        let bytes = encode_endian(&wiring, endian);
        assert_eq!(decode_sized_endian::<Wiring>(&bytes, endian, 6), Ok(wiring.clone()));
    }
}

#[test]
fn wiring_is_ordered_by_first_port() {
    let wiring = Wiring::new(vec![(3, 4), (0, 10), (8, 9), (2, 5), (1, 11), (6, 7)]);
    assert_eq!(wiring.connections, vec![(0, 10), (1, 11), (2, 5), (3, 4), (6, 7), (8, 9)]);
    // Pairs with one first port keep the order in which they came.
    let ties = Wiring::new(vec![(1, 5), (0, 2), (1, 3), (0, 9), (1, 4)]);
    assert_eq!(ties.connections, vec![(0, 2), (0, 9), (1, 5), (1, 3), (1, 4)]);
    assert_eq!(Wiring::new(vec![]).connections, vec![]);
}

#[test]
fn decoded_pair_shares_the_name_zero() {
    let decoded: Net = decode(&encode(&net(con(var("a"), var("a")), vec![]))).unwrap();
    assert_eq!(decoded, net(con(var("0"), var("0")), vec![]));
    assert_eq!(decoded.clone().normalize(), decoded);
}

#[test]
fn decoding_gives_the_normal_form() {
    for net in net_cases() {
        for endian in [Endian::Little, Endian::Big] {
            let decoded: Net = decode_endian(&encode_endian(&net, endian), endian).unwrap();
            assert_eq!(decoded, net.clone().normalize());
        }
    }
}

#[test]
fn normal_form_names_wires_by_place() {
    let normal = two_redex_net().normalize();
    let expected = net(
        var("0"),
        vec![
            (Tree::Era, con(var("1"), var("2"))),
            (con(var("1"), var("0")), con(var("2"), Tree::Era)),
        ],
    );
    assert_eq!(normal, expected);
    assert_eq!(y_combinator().normalize(), net(con(con(var("0"), dup(var("0"), var("1"))), var("1")), vec![]));
}

#[test]
fn normalizing_twice_changes_nothing() {
    for net in net_cases() {
        let once = net.normalize();
        assert_eq!(once.clone().normalize(), once);
    }
}

#[test]
fn renamed_nets_share_a_normal_form() {
    let other = net(
        var("x"),
        vec![
            (Tree::Era, con(var("1"), var("0"))),
            (con(var("1"), var("x")), con(var("0"), Tree::Era)),
        ],
    );
    assert_eq!(two_redex_net().normalize(), other.clone().normalize());
    assert_eq!(encode(&two_redex_net()), encode(&other));
    assert_eq!(encode(&two_redex_net().normalize()), encode(&other.normalize()));
}

#[test]
fn many_wires_get_decimal_names() {
    let mut root = Tree::Era;
    for i in 0..12 {
        let name = format!("v{}", i);
        root = con(con(var(&name), var(&name)), root);
    }
    let normal = net(root, vec![]).normalize();
    let vars = normal.gather_vars();
    assert_eq!(vars.len(), 24);
    assert_eq!(vars[0], "0");
    assert_eq!(vars[21], "10");
    assert_eq!(vars[23], "11");
}

#[test]
fn variables_are_gathered_in_pre_order() {
    assert_eq!(two_redex_net().gather_vars(), vec!["a", "b", "R", "b", "a", "R"]);
    assert_eq!(Tree::gather_vars(&con(var("x"), dup(reference("f"), var("y")))), vec!["x", "y"]);
    assert_eq!(
        two_redex_net().get_current_wiring(),
        Wiring { connections: vec![(0, 4), (1, 3), (2, 5)] }
    );
}

#[test]
fn applying_a_wiring_renames_both_ends() {
    let mut net = net(con(var("p"), con(var("q"), var("r"))), vec![(var("s"), Tree::Era)]);
    net.apply_wiring(Wiring { connections: vec![(0, 3), (1, 2)] });
    assert_eq!(
        net,
        Net {
            root: con(var("0"), con(var("1"), var("1"))),
            redexes: vec![(var("0"), Tree::Era)]
        }
    );
}

#[test]
fn trees_without_variables_encode_alike() {
    for tree in tree_cases() {
        assert_eq!(encode(&tree), encode(&tree.duplicate()));
        let decoded: Tree = decode(&encode(&tree)).unwrap();
        assert_eq!(encode(&decoded), encode(&tree));
    }
}

#[test]
fn reference_names_end_with_a_zero_byte() {
    // Tag 1, then 'f', 'o', 'o' and a zero byte, eight bits each.
    let bytes = encode(&reference("foo"));
    assert_eq!(bytes, vec![0x31, 0x7b, 0x7b, 0x03, 0x00]);
    assert_eq!(decode::<Tree>(&bytes), Ok(reference("foo")));
    let name = HVMRef("f\u{e9}".to_string());
    assert_eq!(decode::<HVMRef>(&encode(&name)), Ok(name));
}

#[test]
fn deep_chains_round_trip() {
    let mut tree = Tree::Era;
    for i in 0..2000u32 {
        tree = if i % 2 == 0 { con(Tree::Num { val: i }, tree) } else { dup(tree, Tree::Era) };
    }
    assert_eq!(decode::<Tree>(&encode(&tree)), Ok(tree));
}

#[test]
fn truncated_input_is_reported() {
    assert_eq!(decode::<Tree>(&[]), Err(DecodeError::Truncated));
    assert_eq!(decode::<VarLenNumber>(&[0]), Err(DecodeError::Truncated));
    // A constructor whose second child is cut off.
    assert_eq!(decode::<Tree>(&[0b0000_0110]), Err(DecodeError::Truncated));
    // A reference whose name never ends.
    assert_eq!(decode::<Tree>(&[0x31, 0x7b]), Err(DecodeError::Truncated));
    // Six ports need more bits than one byte holds.
    assert_eq!(decode_sized::<Wiring>(&[0x00], 6), Err(DecodeError::Truncated));
    assert_eq!(decode::<Net>(&[0b0000_0110]), Err(DecodeError::Truncated));
}

#[test]
fn oversized_number_is_reported() {
    let mut bytes = vec![0b0000_0011];
    bytes.extend_from_slice(&[0; 9]);
    assert_eq!(decode::<Tree>(&bytes), Err(DecodeError::NumberTooLarge));
    assert_eq!(decode::<VarLenNumber>(&[0; 8]), Err(DecodeError::NumberTooLarge));
}

#[test]
fn invalid_name_is_reported() {
    assert_eq!(decode::<Tree>(&[0xf9, 0x07, 0x00]), Err(DecodeError::InvalidName));
}

#[test]
fn ill_formed_nets_are_refused() {
    // The same shape with a variable that occurs three times.
    let broken = net(con(con(var("a"), dup(var("a"), var("a"))), Tree::Era), vec![]);
    assert!(!broken.is_well_formed());
    assert!(!broken.is_encodable());
    let dangling = net(con(con(var("a"), dup(var("a"), var("b"))), Tree::Era), vec![]);
    assert!(!dangling.is_well_formed());
    assert!(!net(var("a"), vec![(var("b"), var("c"))]).is_well_formed());
    assert!(y_combinator().is_well_formed());
    assert!(y_combinator().is_encodable());
    assert!(!net(reference("a\0b"), vec![]).is_encodable());
    assert!(!net(Tree::Era, vec![(Tree::Era, reference("\0"))]).is_encodable());
    assert!(!reference("a\0b").is_encodable());
    assert!(!HVMRef("\0".to_string()).is_encodable());
    assert!(HVMRef("main".to_string()).is_encodable());
    for net in net_cases() {
        assert!(net.is_encodable());
    }
    for tree in tree_cases() {
        assert!(tree.is_encodable());
    }
}

#[test]
fn canonical_wirings_are_told_apart() {
    assert!(Wiring { connections: vec![] }.is_canonical());
    assert!(Wiring { connections: vec![(0, 1)] }.is_canonical());
    assert!(Wiring { connections: vec![(0, 3), (1, 2)] }.is_canonical());
    assert!(!Wiring { connections: vec![(1, 0)] }.is_canonical());
    assert!(!Wiring { connections: vec![(0, 2)] }.is_canonical());
    assert!(!Wiring { connections: vec![(1, 2), (0, 3)] }.is_canonical());
    assert!(!Wiring { connections: vec![(0, 1), (1, 2)] }.is_canonical());
    assert!(!Wiring { connections: vec![(0, 1), (0, 1)] }.is_canonical());
    assert!(!Wiring { connections: vec![(0, 1), (2, 2)] }.is_canonical());
}

#[test]
fn odd_variable_count_is_reported() {
    // A lone variable as root and no active pairs.
    assert_eq!(decode::<Net>(&[0b0000_1010]), Err(DecodeError::OddVariableCount));
}

#[test]
fn impossible_partner_is_reported() {
    // Three ports are open after the first; index 3 names none of them.
    assert_eq!(decode_sized::<Wiring>(&[0b11], 2), Err(DecodeError::WiringViolation));
    assert_eq!(decode_sized::<Wiring>(&[], usize::MAX), Err(DecodeError::WiringViolation));
}

#[test]
fn numbers_keep_their_low_32_bits() {
    let bytes = encode(&Tag::NUM(VarLenNumber((1 << 32) + 5)));
    assert_eq!(decode::<Tree>(&bytes), Ok(Tree::Num { val: 5 }));
}

#[test]
fn numbers_convert_from_and_to_integers() {
    assert_eq!(VarLenNumber::from(7u64), VarLenNumber(7));
    assert_eq!(VarLenNumber::from(7u32), VarLenNumber(7));
    assert_eq!(VarLenNumber::from(7u16), VarLenNumber(7));
    assert_eq!(VarLenNumber::from(7i64), VarLenNumber(7));
    assert_eq!(VarLenNumber::from(-1i64), VarLenNumber(u64::MAX));
    assert_eq!(VarLenNumber::from(i64::MIN), VarLenNumber(1 << 63));
    assert_eq!(u64::from(VarLenNumber(u64::MAX)), u64::MAX);
    assert_eq!(u32::from(VarLenNumber((1 << 32) + 9)), 9);
    assert_eq!(u16::from(VarLenNumber((1 << 16) + 9)), 9);
    assert_eq!(u8::from(VarLenNumber(0x1ff)), 0xff);
    assert_eq!(i64::from(VarLenNumber(u64::MAX)), -1);
    assert_eq!(i64::from(VarLenNumber(1 << 63)), i64::MIN);
    assert_eq!(i64::from(VarLenNumber(12)), 12);
    assert_eq!(HVMRef::from("main".to_string()), HVMRef("main".to_string()));
    assert_eq!(String::from(HVMRef("main".to_string())), "main");
}

fn small_book() -> Book {
    Book {
        defs: vec![
            ("id".to_string(), net(con(var("x"), var("x")), vec![])),
            ("main".to_string(), net(var("r"), vec![(reference("id"), con(Tree::Era, var("r")))])),
            ("mainly".to_string(), net(Tree::Era, vec![])),
        ],
    }
}

fn write_def(stream: &mut BitWriter, name: &str, net: &Net) {
    VarLenNumber(name.len() as u64).write(stream);
    for byte in name.bytes() {
        stream.write_uint(byte as u64, 8);
    }
    net.write(stream);
}

#[test]
fn books_round_trip_in_normal_form() {
    let book = small_book();
    assert!(book.is_encodable());
    for endian in [Endian::Little, Endian::Big] {
        let decoded: Book = decode_endian(&encode_endian(&book, endian), endian).unwrap();
        assert_eq!(decoded.defs.len(), 3);
        for (def, written) in decoded.defs.iter().zip(book.defs.iter()) {
            assert_eq!(def.0, written.0);
            assert_eq!(def.1, written.1.clone().normalize());
        }
    }
    assert_eq!(encode(&Book { defs: vec![] }), vec![0b0000_0001]);
    assert_eq!(decode::<Book>(&[0b0000_0001]), Ok(Book { defs: vec![] }));
}

#[test]
fn book_entries_are_laid_out_in_order() {
    let book = Book { defs: vec![("a".to_string(), net(Tree::Era, vec![]))] };
    // One entry ("010"), a key of one byte ("010"), 'a', then the net "0001".
    assert_eq!(encode(&book), vec![0b0101_0010, 0b0001_1000, 0b0000_0010]);
    let mut stream = BitWriter::new(Endian::Little);
    VarLenNumber(1).write(&mut stream);
    write_def(&mut stream, "a", &book.defs[0].1);
    assert_eq!(stream.into_bytes(), encode(&book));
}

#[test]
fn books_out_of_order_are_refused() {
    let empty = net(Tree::Era, vec![]);
    let unordered = Book { defs: vec![("b".to_string(), empty.clone()), ("a".to_string(), empty.clone())] };
    assert!(!unordered.is_encodable());
    let repeated = Book { defs: vec![("a".to_string(), empty.clone()), ("a".to_string(), empty.clone())] };
    assert!(!repeated.is_encodable());
    let broken = Book { defs: vec![("a".to_string(), net(var("x"), vec![]))] };
    assert!(!broken.is_encodable());
    let prefixed = Book { defs: vec![("ab".to_string(), empty.clone()), ("a".to_string(), empty.clone())] };
    assert!(!prefixed.is_encodable());
}

#[test]
fn key_disorder_is_reported() {
    let empty = net(Tree::Era, vec![]);
    for (first, second) in [("b", "a"), ("a", "a"), ("ab", "a")] {
        let mut stream = BitWriter::new(Endian::Little);
        VarLenNumber(2).write(&mut stream);
        write_def(&mut stream, first, &empty);
        write_def(&mut stream, second, &empty);
        assert_eq!(decode::<Book>(&stream.into_bytes()), Err(DecodeError::KeyDisorder));
    }
    let mut stream = BitWriter::new(Endian::Little);
    VarLenNumber(2).write(&mut stream);
    write_def(&mut stream, "a", &empty);
    write_def(&mut stream, "ab", &empty);
    assert_eq!(
        decode::<Book>(&stream.into_bytes()),
        Ok(Book { defs: vec![("a".to_string(), empty.clone()), ("ab".to_string(), empty)] })
    );
}

#[test]
fn book_names_must_be_utf8() {
    let mut stream = BitWriter::new(Endian::Little);
    VarLenNumber(1).write(&mut stream);
    VarLenNumber(1).write(&mut stream);
    stream.write_uint(0xff, 8);
    net(Tree::Era, vec![]).write(&mut stream);
    assert_eq!(decode::<Book>(&stream.into_bytes()), Err(DecodeError::InvalidName));
    assert_eq!(decode::<Book>(&[0b0101_0010]), Err(DecodeError::Truncated));
}

fn integer_cases() -> Vec<(u64, usize)> {
    vec![
        (0, 0),
        (1, 1),
        (0b101, 3),
        (77, 7),
        (0xab, 8),
        (0xabc, 12),
        (0x1234_5678, 32),
        (0x0123_4567_89ab_cdef, 57),
        (0x1234_5678_9abc_def0, 61),
        (u64::MAX, 64),
    ]
}

#[test]
fn little_endian_integers_agree_with_bitbuffer() {
    for lead in 0..8 {
        for (value, width) in integer_cases() {
            let mut mine = BitWriter::new(Endian::Little);
            let mut bytes = Vec::new();
            let mut theirs = BitWriteStream::new(&mut bytes, LittleEndian);
            for _ in 0..lead {
                mine.write_bool(true);
                theirs.write_bool(true).unwrap();
            }
            mine.write_uint(value, width);
            theirs.write_int(value, width).unwrap();
            mine.write_bool(true);
            theirs.write_bool(true).unwrap();
            assert_eq!(mine.into_bytes(), bytes, "{} bits after {}", width, lead);

            let mut reader = BitReader::new(&bytes, Endian::Little);
            let mut stream = BitReadStream::new(BitReadBuffer::new(&bytes, LittleEndian));
            for _ in 0..lead {
                assert_eq!(reader.read_bool().unwrap(), stream.read_bool().unwrap());
            }
            assert_eq!(reader.read_uint(width).unwrap(), value);
            assert_eq!(stream.read_int::<u64>(width).unwrap(), value);
            assert_eq!(reader.read_bool().unwrap(), stream.read_bool().unwrap());
        }
    }
}

#[test]
fn big_endian_integers_agree_with_bitbuffer() {
    for lead in 0..8 {
        for (value, width) in integer_cases() {
            let mut mine = BitWriter::new(Endian::Big);
            let mut bytes = Vec::new();
            let mut theirs = BitWriteStream::new(&mut bytes, BigEndian);
            for _ in 0..lead {
                mine.write_bool(true);
                theirs.write_bool(true).unwrap();
            }
            mine.write_uint(value, width);
            theirs.write_int(value, width).unwrap();
            mine.write_bool(true);
            theirs.write_bool(true).unwrap();
            assert_eq!(mine.into_bytes(), bytes, "{} bits after {}", width, lead);

            let mut reader = BitReader::new(&bytes, Endian::Big);
            let mut stream = BitReadStream::new(BitReadBuffer::new(&bytes, BigEndian));
            for _ in 0..lead {
                assert_eq!(reader.read_bool().unwrap(), stream.read_bool().unwrap());
            }
            assert_eq!(reader.read_uint(width).unwrap(), value);
            assert_eq!(stream.read_int::<u64>(width).unwrap(), value);
            assert_eq!(reader.read_bool().unwrap(), stream.read_bool().unwrap());
        }
    }
}

#[test]
fn names_agree_with_bitbuffer() {
    for name in ["", "a", "main", "f\u{e9}e", "\u{4e16}\u{754c}"] {
        for lead in 0..8 {
            let mut mine = BitWriter::new(Endian::Little);
            let mut bytes = Vec::new();
            let mut theirs = BitWriteStream::new(&mut bytes, LittleEndian);
            for _ in 0..lead {
                mine.write_bool(false);
                theirs.write_bool(false).unwrap();
            }
            HVMRef(name.to_string()).write(&mut mine);
            theirs.write_string(name, None).unwrap();
            assert_eq!(mine.into_bytes(), bytes, "{:?} after {}", name, lead);

            let mut reader = BitReader::new(&bytes, Endian::Little);
            let mut stream = BitReadStream::new(BitReadBuffer::new(&bytes, LittleEndian));
            for _ in 0..lead {
                assert_eq!(reader.read_bool().unwrap(), stream.read_bool().unwrap());
            }
            assert_eq!(HVMRef::read(&mut reader).unwrap().0, name);
            assert_eq!(stream.read_string(None).unwrap(), name);
        }
    }
}
