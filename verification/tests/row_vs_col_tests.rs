use task_pool::foundations::row_vs_col::{ColStore, ColumnTable, PaxStore, RowStore};

fn row(i: i64) -> [i64; 10] {
    [i, i + 1, i + 2, i + 3, i + 4, i + 5, i + 6, i + 7, i + 8, i + 9]
}

fn populate<T: ColumnTable>(n: i64) -> T {
    let mut table = T::new();
    for i in 0..n {
        table.insert(row(i));
    }
    table
}

#[test]
fn row_store_reads_and_sums() {
    let mut table: RowStore = populate(10);
    assert_eq!(table.get(3, 5), 8);
    assert_eq!(table.get(9, 0), 9);
    assert_eq!(table.get_col_sum(5), 95);
    assert_eq!(table.get_col_sum(0), 45);
}

#[test]
fn col_store_reads_and_sums() {
    let mut table: ColStore = populate(10);
    assert_eq!(table.get(3, 5), 8);
    assert_eq!(table.get(9, 9), 18);
    assert_eq!(table.get_col_sum(5), 95);
}

#[test]
fn pax_store_spans_pages() {
    let mut table: PaxStore<4> = populate(10);
    assert_eq!(table.get(0, 0), 0);
    assert_eq!(table.get(4, 1), 5);
    assert_eq!(table.get(9, 9), 18);
    assert_eq!(table.get_col_sum(9), 135);
}

#[test]
fn three_layouts_hold_the_same_table() {
    let mut rows: RowStore = populate(37);
    let mut cols: ColStore = populate(37);
    let mut pax: PaxStore<8> = populate(37);
    for r in 0..37 {
        for c in 0..10 {
            assert_eq!(rows.get(r, c), cols.get(r, c));
            assert_eq!(rows.get(r, c), pax.get(r, c));
        }
    }
    for c in 0..10 {
        let s = rows.get_col_sum(c);
        assert_eq!(cols.get_col_sum(c), s);
        assert_eq!(pax.get_col_sum(c), s);
    }
}

#[test]
fn empty_tables_sum_to_zero() {
    let mut rows = RowStore::new();
    let mut cols = ColStore::new();
    let mut pax: PaxStore<16> = PaxStore::new();
    assert_eq!(rows.get_col_sum(2), 0);
    assert_eq!(cols.get_col_sum(2), 0);
    assert_eq!(pax.get_col_sum(2), 0);
}
