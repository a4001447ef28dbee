use sudoku_rs::bitset::BitSet;
use sudoku_rs::error::SuDoKuError;

#[test]
fn set() {
    let mut bitset = BitSet::new();
    bitset.set(1).unwrap();
    assert_eq!(bitset.bits(), 2);
}

#[test]
fn set_get() {
    let mut bitset = BitSet::new();
    bitset.set(2).unwrap();
    assert!(bitset.get(2).unwrap());
}

#[test]
fn and() {
    let mut bitset_one = BitSet::new();
    bitset_one.set(1).unwrap();
    let mut bitset_another = BitSet::new();
    bitset_another.set(0).unwrap();
    let bitset_and = bitset_one | bitset_another;
    assert!(bitset_and.get(0).unwrap());
    assert!(bitset_and.get(1).unwrap());
}

#[test]
fn count() {
    let mut bitset = BitSet::new();
    bitset.set(0).unwrap();
    bitset.set(1).unwrap();
    bitset.set(2).unwrap();
    bitset.set(1).unwrap();
    assert_eq!(bitset.bits(), 7);
    assert_eq!(bitset.count(), 3);
}

#[test]
fn remove() {
    let mut bitset = BitSet::new();
    bitset.set(1).unwrap();
    bitset.set(2).unwrap();
    bitset.remove(1).unwrap();
    assert_eq!(bitset.bits(), 4);
}

#[test]
fn reverse() {
    let mut bitset = BitSet::new();
    bitset.set(1).unwrap();
    bitset.set(2).unwrap();
    let v = bitset.reverse(4);
    assert_eq!(v, vec![0, 3]);
}

#[test]
fn new_set_is_empty() {
    let bitset = BitSet::new();
    assert_eq!(bitset.bits(), 0);
    assert_eq!(bitset.count(), 0);
    assert!(!bitset.get(0).unwrap());
    assert!(!bitset.get(15).unwrap());
    assert_eq!(BitSet::default().bits(), 0);
}

#[test]
fn key_sixteen_is_out_of_bound() {
    let mut bitset = BitSet::new();
    bitset.set(3).unwrap();
    assert_eq!(bitset.set(16), Err(SuDoKuError::OutOfBound));
    assert_eq!(bitset.get(16), Err(SuDoKuError::OutOfBound));
    assert_eq!(bitset.remove(16), Err(SuDoKuError::OutOfBound));
    assert_eq!(bitset.set(255), Err(SuDoKuError::OutOfBound));
    assert_eq!(bitset.bits(), 8);
}

#[test]
fn key_fifteen_is_the_last() {
    let mut bitset = BitSet::new();
    assert_eq!(bitset.set(15), Ok(()));
    assert_eq!(bitset.bits(), 0x8000);
    assert_eq!(bitset.get(15), Ok(true));
    assert_eq!(bitset.count(), 1);
}

#[test]
fn remove_reports_membership() {
    let mut bitset = BitSet::new();
    bitset.set(5).unwrap();
    assert_eq!(bitset.remove(5), Ok(true));
    assert_eq!(bitset.remove(5), Ok(false));
    assert_eq!(bitset.get(5), Ok(false));
    assert_eq!(bitset.count(), 0);
}

#[test]
fn set_twice_counts_once() {
    let mut bitset = BitSet::new();
    bitset.set(9).unwrap();
    bitset.set(9).unwrap();
    assert_eq!(bitset.count(), 1);
    assert_eq!(bitset.bits(), 1 << 9);
}

#[test]
fn union_is_commutative_and_associative() {
    let mut a = BitSet::new();
    a.set(1).unwrap();
    a.set(4).unwrap();
    let mut b = BitSet::new();
    b.set(4).unwrap();
    b.set(7).unwrap();
    let mut c = BitSet::new();
    c.set(15).unwrap();
    assert_eq!((a | b).bits(), (b | a).bits());
    assert_eq!(((a | b) | c).bits(), (a | (b | c)).bits());
    assert_eq!((a | b).bits(), 0b1001_0010);
    assert_eq!((a | b).count(), 3);
}

#[test]
fn reverse_of_empty_set_lists_the_range() {
    let bitset = BitSet::new();
    assert_eq!(bitset.reverse(0), Vec::<u8>::new());
    assert_eq!(bitset.reverse(3), vec![0, 1, 2]);
}

#[test]
fn reverse_beyond_sixteen_lists_what_cannot_be_a_member() {
    let mut bitset = BitSet::new();
    for key in 0..16 {
        bitset.set(key).unwrap();
    }
    assert_eq!(bitset.count(), 16);
    assert_eq!(bitset.reverse(16), Vec::<u8>::new());
    assert_eq!(bitset.reverse(19), vec![16, 17, 18]);
}

#[test]
fn error_renders_as_its_name() {
    assert_eq!(SuDoKuError::InvalidValue.to_string(), "InvalidValue");
    assert_eq!(SuDoKuError::OutOfBound.to_string(), "OutOfBound");
    assert_eq!(SuDoKuError::NotSolveable.to_string(), "NotSolveable");
    assert_eq!(SuDoKuError::DuplicateValue.to_string(), "DuplicateValue");
}
