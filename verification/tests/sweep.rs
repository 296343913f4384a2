use panetiere::sweep::text::{
    parse_list, parse_number, parse_pair, parse_pairs, push_decimal, split, trim, COMMA,
};
use panetiere::sweep::{
    agg_group_size, cell_at, cell_id, cell_seed, client_only, group_count, lane_plan, match_cell,
    merge_rows, message_polys, name_of_flow, param_key, parse_flow, relabel, rs_seed, slot_bytes,
    splice_plan, CellFacts, CellSizes, Flow, Owner, Roles, RowError, SpliceError,
};

fn rows(lines: &[&str]) -> Vec<Vec<u8>> {
    lines.iter().map(|l| l.as_bytes().to_vec()).collect()
}

#[test]
fn texts_are_split_and_trimmed() {
    assert_eq!(split(b"a,,bc,", COMMA), rows(&["a", "", "bc", ""]));
    assert_eq!(split(b"", COMMA), rows(&[""]));
    assert_eq!(trim(b" \t a b\r\n"), b"a b".to_vec());
    assert_eq!(trim(b"  "), Vec::<u8>::new());
}

#[test]
fn numbers_and_pairs_are_read() {
    assert_eq!(parse_number(b"0042"), Some(42));
    assert_eq!(parse_number(b"+7"), Some(7));
    assert_eq!(parse_number(b""), None);
    assert_eq!(parse_number(b"+"), None);
    assert_eq!(parse_number(b"-1"), None);
    assert_eq!(parse_number(usize::MAX.to_string().as_bytes()), Some(usize::MAX));
    assert_eq!(parse_number(b"18446744073709551616"), None);
    assert_eq!(parse_list(b"8, 16 ,64"), Some(vec![8, 16, 64]));
    assert_eq!(parse_list(b"  "), Some(vec![]));
    assert_eq!(parse_list(b"8,,64"), None);
    assert_eq!(parse_pair(b"14x16"), Some((14, 16)));
    assert_eq!(parse_pair(b"14x16x2"), None);
    assert_eq!(parse_pairs(b"100x100, 300x100"), Some(vec![(100, 100), (300, 100)]));
    assert_eq!(parse_pairs(b"100"), None);
    let mut out = vec![b'n'];
    push_decimal(&mut out, 9070);
    assert_eq!(out, b"n9070".to_vec());
}

#[test]
fn roles_are_read_from_a_list() {
    assert_eq!(Roles::from_env_str(b" "), Some(Roles::all()));
    assert_eq!(Roles::from_env_str(b"all "), Some(Roles::all()));
    let some = Roles::from_env_str(b"server, rs").unwrap();
    let owned: Vec<bool> =
        [Owner::Client, Owner::Server, Owner::Verifier, Owner::Agg, Owner::Rs]
            .iter()
            .map(|&o| some.owns(o))
            .collect();
    assert_eq!(owned, vec![false, true, false, false, true]);
    let client_only = Roles::from_env_str(b"client").unwrap();
    assert!(client_only.client && !client_only.server && !client_only.verifier);
    assert_eq!(Roles::from_env_str(b"client,all"), None);
    for o in [Owner::Client, Owner::Server, Owner::Verifier, Owner::Agg, Owner::Rs] {
        assert!(Roles::all().owns(o));
    }
}

#[test]
fn cells_are_labelled() {
    assert_eq!(cell_id(0), b"A".to_vec());
    assert_eq!(cell_id(25), b"Z".to_vec());
    assert_eq!(cell_id(26), b"A1".to_vec());
    assert_eq!(cell_id(26 * 12 + 3), b"D12".to_vec());
}

#[test]
fn cells_are_sized() {
    for (n, g) in [(0usize, 2usize), (4, 2), (5, 3), (9, 3), (10, 4), (100, 10), (300, 18)] {
        assert_eq!(agg_group_size(n), g, "n = {n}");
    }
    assert_eq!(group_count(300, 18), 17);
    assert_eq!(group_count(0, 3), 0);
    assert_eq!(slot_bytes(409_600, 100), 4096);
    assert_eq!(slot_bytes(10, 3), 4);
    assert_eq!(slot_bytes(10, 0), 12);
    assert_eq!(message_polys(100, 4096), 50);
    assert_eq!(message_polys(3, 4), 1);
    assert_eq!(message_polys(0, 4), 0);
    assert_eq!(lane_plan(14, 16, 8), (14, 16));
    assert_eq!(lane_plan(14, 16, 64), (62, 64));
    let sizes = CellSizes {
        servers: 8,
        open_env_b: 100,
        comm_client_b: 7,
        ctxt_client_b: 30,
        agg_open_b: 5,
        agg_share_b: 6,
    };
    assert!(sizes.check());
    assert_eq!(sizes.client_to_server_b(), 800);
    assert_eq!(sizes.client_to_recipient_b(), 37);
    assert_eq!(sizes.client_post_b(), 837);
    assert_eq!(sizes.server_entry_b(), 11);
}

#[test]
fn flows_have_names() {
    for flow in [Flow::Mse, Flow::Prony, Flow::Sched] {
        assert_eq!(parse_flow(&name_of_flow(flow)), Some(flow));
    }
    assert_eq!(parse_flow(b"MSE"), None);
}

#[test]
fn seeds_follow_every_parameter() {
    let base = cell_seed(8, 100, 100, 911, Flow::Mse, 0);
    let others = [
        cell_seed(16, 100, 100, 911, Flow::Mse, 0),
        cell_seed(8, 300, 100, 911, Flow::Mse, 0),
        cell_seed(8, 100, 99, 911, Flow::Mse, 0),
        cell_seed(8, 100, 100, 912, Flow::Mse, 0),
        cell_seed(8, 100, 100, 911, Flow::Prony, 0),
        cell_seed(8, 100, 100, 911, Flow::Mse, 1),
    ];
    for other in others {
        assert_ne!(base, other);
    }
    assert_eq!(base, cell_seed(8, 100, 100, 911, Flow::Mse, 0));
    assert_ne!(rs_seed(&base, 14, 16), rs_seed(&base, 16, 14));
}

#[test]
fn tables_are_merged() {
    let header = "id,a,b,c,d,e,f,g,h,i,j,k,l,m";
    let old = rows(&[header, "A,1,1,1,1,1,1,1,1,1,1,1,1,old", "B,2,1,1,1,1,1,1,1,1,1,1,1,old"]);
    let new = rows(&["A,2,1,1,1,1,1,1,1,1,1,1,1,new"]);
    assert_eq!(param_key(&new[0]), b"2,1,1,1,1,1,1,1,1,1,1,1".to_vec());
    assert_eq!(param_key(b"A"), Vec::<u8>::new());
    assert_eq!(
        merge_rows(header.as_bytes(), &old, &new),
        rows(&["A,1,1,1,1,1,1,1,1,1,1,1,1,old", "A,2,1,1,1,1,1,1,1,1,1,1,1,new"])
    );
    assert_eq!(merge_rows(b"id,other", &old, &new), new);
    assert_eq!(relabel(1, b"A,2,x"), b"B,2,x".to_vec());
}

#[test]
fn fields_are_found_by_column() {
    let header = rows(&["id", "rho", "rho"]);
    let cells = rows(&["A", "7", "8"]);
    assert_eq!(cell_at(&header, &cells, b"rho"), Ok(b"7".to_vec()));
    assert_eq!(cell_at(&header, &cells, b"xi"), Err(RowError::MissingColumn));
    assert_eq!(
        cell_at(&header, &cells[..2], b"id"),
        Err(RowError::FieldCount { got: 2, want: 3 })
    );
}

fn facts(key: &str, threads: usize, open_env_b: usize) -> CellFacts {
    CellFacts {
        key: key.as_bytes().to_vec(),
        threads,
        open_env_b,
        ctxt_client_b: 3,
        agg_open_b: 4,
    }
}

#[test]
fn runs_are_spliced() {
    let clients = vec![facts("x", 8, 1), facts("z", 8, 1), facts("x", 9, 1)];
    let hosts = vec![facts("y", 8, 1), facts("x", 8, 1)];
    assert_eq!(splice_plan(&clients, &hosts), Ok(vec![None, Some(0)]));
    assert_eq!(client_only(&clients, &hosts), vec![1]);
    assert_eq!(match_cell(&clients, &facts("x", 4, 1)), Err(SpliceError::Threads));
    assert_eq!(match_cell(&clients, &facts("x", 8, 2)), Err(SpliceError::OpeningSize));
    let mut other = facts("x", 8, 1);
    other.ctxt_client_b = 0;
    assert_eq!(match_cell(&clients, &other), Err(SpliceError::CiphertextSize));
    other.ctxt_client_b = 3;
    other.agg_open_b = 0;
    assert_eq!(match_cell(&clients, &other), Err(SpliceError::AggregateSize));
    let bad = vec![facts("y", 8, 1), facts("x", 4, 1)];
    assert_eq!(splice_plan(&clients, &bad), Err((1, SpliceError::Threads)));
}
