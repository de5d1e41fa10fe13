use bignum_project::cache::{
    touch_cache, worker_simulated_multiply, AlignedTable, BASE, LINE_ENTRIES, TABLE_SIZE,
};

#[test]
fn table_holds_every_product() {
    let table = AlignedTable::new();
    assert_eq!(table.data.len(), TABLE_SIZE);
    for i in 0..256usize {
        for j in 0..256usize {
            assert_eq!(table.data[i * BASE + j] as usize, i * j);
        }
    }
}

#[test]
fn table_corner_entries() {
    let table = AlignedTable::new();
    assert_eq!(table.data[0], 0);
    assert_eq!(table.data[255], 0);
    assert_eq!(table.data[256 + 1], 1);
    assert_eq!(table.data[255 * 256 + 255], 65025);
    assert_eq!(table.data[TABLE_SIZE - 1], 65025);
}

#[test]
fn lookup_reads_products() {
    let table = AlignedTable::new();
    assert_eq!(table.lookup(0, 0), 0);
    assert_eq!(table.lookup(0, 255), 0);
    assert_eq!(table.lookup(1, 255), 255);
    assert_eq!(table.lookup(12, 12), 144);
    assert_eq!(table.lookup(255, 255), 65025);
    assert_eq!(table.lookup(200, 3), table.lookup(3, 200));
}

#[test]
fn touch_cache_sums_one_entry_per_line() {
    let table = AlignedTable::new();
    let mut expected: u64 = 0;
    let mut idx = 0usize;
    while idx < TABLE_SIZE {
        expected += table.data[idx] as u64;
        idx += LINE_ENTRIES;
    }
    assert_eq!(touch_cache(&table), expected);
    assert_eq!(touch_cache(&table), 29_245_440);
}

#[test]
fn touch_cache_reads_the_table_it_is_given() {
    let mut table = AlignedTable::new();
    table.data[0] = 7;
    table.data[32] = 5;
    table.data[33] = 1000;
    assert_eq!(touch_cache(&table), 29_245_440 + 12);
}

#[test]
fn simulated_worker_sums_eight_rows() {
    let table = AlignedTable::new();
    assert_eq!(worker_simulated_multiply(&table, 0), 0);
    assert_eq!(worker_simulated_multiply(&table, 1), 913_920);
    assert_eq!(worker_simulated_multiply(&table, 4), 3_655_680);
    assert_eq!(worker_simulated_multiply(&table, 1000), 913_920_000);
}

#[test]
fn simulated_worker_follows_the_entries() {
    let mut table = AlignedTable::new();
    table.data[5] = 100;
    table.data[8 * 256] = 9999;
    assert_eq!(worker_simulated_multiply(&table, 3), 3 * (913_920 + 100));
}

#[test]
fn damaged_table_is_told_apart() {
    let mut table = AlignedTable::new();
    assert!(table.is_well_formed());
    table.data[3 * 256 + 4] = 13;
    assert!(!table.is_well_formed());
    table.data[3 * 256 + 4] = 12;
    assert!(table.is_well_formed());
    table.data[TABLE_SIZE - 1] = 0;
    assert!(!table.is_well_formed());
}
