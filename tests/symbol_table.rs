use peano::symbol_table::SymbolTable;

#[test]
fn test_symbol_lookup() {
    let mut symbols = SymbolTable::new();
    let handle = symbols.handle("x");
    let val = symbols.lookup(handle);
    assert_eq!(val, "x");
}

#[test]
fn test_symbol_duplicate() {
    let mut symbols = SymbolTable::new();
    let handle1 = symbols.handle("x");
    let handle2 = symbols.handle("x");
    assert_eq!(handle1, handle2);
}

#[test]
fn interning_is_case_and_space_sensitive() {
    let mut symbols = SymbolTable::new();
    let plus = symbols.handle("+");
    let word = symbols.handle("plus");
    let upper = symbols.handle("Plus");
    let spaced = symbols.handle("with space");
    assert_ne!(plus, word);
    assert_ne!(word, upper);
    assert_eq!(symbols.lookup(spaced), "with space");
    assert_eq!(symbols.lookup(plus), "+");
    assert_eq!(symbols.handle("plus"), word);
}

#[test]
fn empty_string_interns_like_any_other() {
    let mut symbols = SymbolTable::new();
    let e = symbols.handle("");
    let a = symbols.handle("a");
    assert_ne!(e, a);
    assert_eq!(symbols.handle(""), e);
    assert_eq!(symbols.lookup(e), "");
}
