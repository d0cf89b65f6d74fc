use vstd::prelude::*;
use vstd::string::StringExecFns;
use crate::text::{eq_lower, eq_str, spec_lower, to_lower};

verus! {
/// The block of the merge, where processing starts by default.
pub const MERGE_BLOCK: u64 = 15537393;

/// How often, in blocks, checkpoints are refreshed.
pub const CHECKPOINT_UPDATE_INTERVAL: u64 = 1000;

/// Deployment block of the PEPE-WETH-3000 pool.
pub const PEPE_DEPLOYMENT_V3: u64 = 17083569;

/// Deployment block of the PEPE-WETH-v2 pool.
pub const PEPE_DEPLOYMENT_V2: u64 = 17046833;

/// Deployment block of the USDe-USDT-100 pool.
pub const USDE_USDT_DEPLOYMENT: u64 = 18634804;

/// Deployment block of the WETH-USDT-100 pool.
pub const WETH_USDT_100_DEPLOYMENT: u64 = 16266586;

/// The addresses of the tracked pools, as they are written in the pool
/// table (some are checksummed, with capitals).
pub open spec fn spec_pool_addresses() -> Seq<Seq<char>> {
    seq![
        "0x88e6a0c2ddd26feeb64f039a2c41296fcb3f5640"@,
        "0x3416cf6c708da44db2624d63ea0aaef7113527c6"@,
        "0x11b815efb8f581194ae79006d24e0d814b7697f6"@,
        "0x4585fe77225b41b697c938b018e2ac67ac5a20c0"@,
        "0x8ad599c3a0ff1de082011efddc58f1908eb6e6d8"@,
        "0xc7bbec68d12a0d1830360f8ec58fa599ba1b0e9b"@,
        "0xcbcdf9626bc03e24f779434178a73a0b4bad62ed"@,
        "0x5777d92f208679db4b9778590fa3cab3ac9e2168"@,
        "0x4e68ccd3e89f51c3074ca5072bbac773960dfa36"@,
        "0x60594a405d53811d3bc4766596efd80fd545a270"@,
        "0x7858e59e0c01ea06df3af3d20ac7b0003275d4bf"@,
        "0x435664008F38B0650fBC1C9fc971D0A3Bc2f1e47"@,
        "0xa6cc3c2531fdaa6ae1a3ca84c2855806728693e8"@,
        "0x11950d141ecb863f01007add7d1a342041227b58"@,
        "0x9a772018fbd77fcd2d25657e5c547baff3fd7d16"@,
        "0x99ac8ca7087fa4a2a1fb6357269965a2014abc35"@,
        "0x1d42064fc4beb5f8aaf85f4617ae8b3b5b8bd801"@,
        "0xc2e9f25be6257c210d7adf0d4cd6e3e881ba25f8"@,
        "0x48da0965ab2d2cbf1c17c09cfb5cbe67ad5b1406"@,
        "0x0d4a11d5EEaaC28EC3F61d100daF4d40471f1852"@,
        "0xB4e16d0168e52d35CaCD2c6185b44281Ec28C9Dc"@,
        "0xa43fe16908251ee70ef74718545e4fe6c5ccec9f"@,
    ]
}

/// The names of the tracked pools, in the order of `spec_pool_addresses`.
pub open spec fn spec_pool_names() -> Seq<Seq<char>> {
    seq![
        "USDC-WETH-500"@,
        "USDC-USDT-100"@,
        "WETH-USDT-500"@,
        "WBTC-WETH-500"@,
        "USDC-WETH-3000"@,
        "WETH-USDT-100"@,
        "WBTC-WETH-3000"@,
        "DAI-USDC-100"@,
        "WETH-USDT-3000"@,
        "DAI-WETH-500"@,
        "USDC-USDT-500"@,
        "USDe-USDT-100"@,
        "LINK-WETH-3000"@,
        "PEPE-WETH-3000"@,
        "WBTC-USDC-500"@,
        "WBTC-USDC-3000"@,
        "UNI-WETH-3000"@,
        "DAI-WETH-3000"@,
        "DAI-USDT-100"@,
        "USDT-WETH-v2"@,
        "WETH-USDC-v2"@,
        "PEPE-WETH-v2"@,
    ]
}

/// The pool table: each tracked pool's address and name.
pub fn pool_table() -> (r: Vec<(&'static str, &'static str)>)
    ensures
        r.len() == spec_pool_addresses().len(),
        forall|i: int| 0 <= i < r.len() ==> (#[trigger] r@[i]).0@ == spec_pool_addresses()[i],
        forall|i: int| 0 <= i < r.len() ==> (#[trigger] r@[i]).1@ == spec_pool_names()[i],
{
    let mut r: Vec<(&'static str, &'static str)> = Vec::new();
    r.push(("0x88e6a0c2ddd26feeb64f039a2c41296fcb3f5640", "USDC-WETH-500"));
    r.push(("0x3416cf6c708da44db2624d63ea0aaef7113527c6", "USDC-USDT-100"));
    r.push(("0x11b815efb8f581194ae79006d24e0d814b7697f6", "WETH-USDT-500"));
    r.push(("0x4585fe77225b41b697c938b018e2ac67ac5a20c0", "WBTC-WETH-500"));
    r.push(("0x8ad599c3a0ff1de082011efddc58f1908eb6e6d8", "USDC-WETH-3000"));
    r.push(("0xc7bbec68d12a0d1830360f8ec58fa599ba1b0e9b", "WETH-USDT-100"));
    r.push(("0xcbcdf9626bc03e24f779434178a73a0b4bad62ed", "WBTC-WETH-3000"));
    r.push(("0x5777d92f208679db4b9778590fa3cab3ac9e2168", "DAI-USDC-100"));
    r.push(("0x4e68ccd3e89f51c3074ca5072bbac773960dfa36", "WETH-USDT-3000"));
    r.push(("0x60594a405d53811d3bc4766596efd80fd545a270", "DAI-WETH-500"));
    r.push(("0x7858e59e0c01ea06df3af3d20ac7b0003275d4bf", "USDC-USDT-500"));
    r.push(("0x435664008F38B0650fBC1C9fc971D0A3Bc2f1e47", "USDe-USDT-100"));
    r.push(("0xa6cc3c2531fdaa6ae1a3ca84c2855806728693e8", "LINK-WETH-3000"));
    r.push(("0x11950d141ecb863f01007add7d1a342041227b58", "PEPE-WETH-3000"));
    r.push(("0x9a772018fbd77fcd2d25657e5c547baff3fd7d16", "WBTC-USDC-500"));
    r.push(("0x99ac8ca7087fa4a2a1fb6357269965a2014abc35", "WBTC-USDC-3000"));
    r.push(("0x1d42064fc4beb5f8aaf85f4617ae8b3b5b8bd801", "UNI-WETH-3000"));
    r.push(("0xc2e9f25be6257c210d7adf0d4cd6e3e881ba25f8", "DAI-WETH-3000"));
    r.push(("0x48da0965ab2d2cbf1c17c09cfb5cbe67ad5b1406", "DAI-USDT-100"));
    r.push(("0x0d4a11d5EEaaC28EC3F61d100daF4d40471f1852", "USDT-WETH-v2"));
    r.push(("0xB4e16d0168e52d35CaCD2c6185b44281Ec28C9Dc", "WETH-USDC-v2"));
    r.push(("0xa43fe16908251ee70ef74718545e4fe6c5ccec9f", "PEPE-WETH-v2"));
    r
}

/// The names of the pool clusters, in the order in which a pool is looked
/// up in them.
pub open spec fn spec_cluster_names() -> Seq<Seq<char>> {
    seq![
        "Stable Pairs"@,
        "WBTC-WETH"@,
        "USDC-WETH"@,
        "USDT-WETH"@,
        "DAI-WETH"@,
        "USDC-WBTC"@,
        "Altcoin-WETH"@,
    ]
}

/// The pool addresses of each cluster, as the cluster tables write them.
pub open spec fn spec_cluster_members() -> Seq<Seq<Seq<char>>> {
    seq![
        seq!["0x3416cf6c708da44db2624d63ea0aaef7113527c6"@, "0x5777d92f208679db4b9778590fa3cab3ac9e2168"@, "0x7858e59e0c01ea06df3af3d20ac7b0003275d4bf"@, "0x48da0965ab2d2cbf1c17c09cfb5cbe67ad5b1406"@, "0x435664008F38B0650fBC1C9fc971D0A3Bc2f1e47"@],
        seq!["0x4585fe77225b41b697c938b018e2ac67ac5a20c0"@, "0xcbcdf9626bc03e24f779434178a73a0b4bad62ed"@],
        seq!["0x88e6a0c2ddd26feeb64f039a2c41296fcb3f5640"@, "0x8ad599c3a0ff1de082011efddc58f1908eb6e6d8"@, "0xB4e16d0168e52d35CaCD2c6185b44281Ec28C9Dc"@],
        seq!["0xc7bbec68d12a0d1830360f8ec58fa599ba1b0e9b"@, "0x4e68ccd3e89f51c3074ca5072bbac773960dfa36"@, "0x11b815efb8f581194ae79006d24e0d814b7697f6"@, "0x0d4a11d5EEaaC28EC3F61d100daF4d40471f1852"@],
        seq!["0x60594a405d53811d3bc4766596efd80fd545a270"@, "0xc2e9f25be6257c210d7adf0d4cd6e3e881ba25f8"@],
        seq!["0x9a772018fbd77fcd2d25657e5c547baff3fd7d16"@, "0x99ac8ca7087fa4a2a1fb6357269965a2014abc35"@],
        seq!["0x1d42064fc4beb5f8aaf85f4617ae8b3b5b8bd801"@, "0x11950d141ecb863f01007add7d1a342041227b58"@, "0xa6cc3c2531fdaa6ae1a3ca84c2855806728693e8"@, "0xa43fe16908251ee70ef74718545e4fe6c5ccec9f"@],
    ]
}

/// The cluster tables: each cluster's name and member addresses.
pub fn cluster_table() -> (r: Vec<(&'static str, Vec<&'static str>)>)
    ensures
        r.len() == spec_cluster_names().len(),
        forall|i: int| 0 <= i < r.len() ==> (#[trigger] r@[i]).0@ == spec_cluster_names()[i],
        forall|i: int|
            0 <= i < r.len() ==> (#[trigger] r@[i]).1.len() == spec_cluster_members()[i].len(),
        forall|i: int, j: int|
            0 <= i < r.len() && 0 <= j < r@[i].1.len() ==> (#[trigger] r@[i].1@[j])@
                == spec_cluster_members()[i][j],
{
    let mut r: Vec<(&'static str, Vec<&'static str>)> = Vec::new();
    let mut m0: Vec<&'static str> = Vec::new();
    m0.push("0x3416cf6c708da44db2624d63ea0aaef7113527c6");
    m0.push("0x5777d92f208679db4b9778590fa3cab3ac9e2168");
    m0.push("0x7858e59e0c01ea06df3af3d20ac7b0003275d4bf");
    m0.push("0x48da0965ab2d2cbf1c17c09cfb5cbe67ad5b1406");
    m0.push("0x435664008F38B0650fBC1C9fc971D0A3Bc2f1e47");
    r.push(("Stable Pairs", m0));
    let mut m1: Vec<&'static str> = Vec::new();
    m1.push("0x4585fe77225b41b697c938b018e2ac67ac5a20c0");
    m1.push("0xcbcdf9626bc03e24f779434178a73a0b4bad62ed");
    r.push(("WBTC-WETH", m1));
    let mut m2: Vec<&'static str> = Vec::new();
    m2.push("0x88e6a0c2ddd26feeb64f039a2c41296fcb3f5640");
    m2.push("0x8ad599c3a0ff1de082011efddc58f1908eb6e6d8");
    m2.push("0xB4e16d0168e52d35CaCD2c6185b44281Ec28C9Dc");
    r.push(("USDC-WETH", m2));
    let mut m3: Vec<&'static str> = Vec::new();
    m3.push("0xc7bbec68d12a0d1830360f8ec58fa599ba1b0e9b");
    m3.push("0x4e68ccd3e89f51c3074ca5072bbac773960dfa36");
    m3.push("0x11b815efb8f581194ae79006d24e0d814b7697f6");
    m3.push("0x0d4a11d5EEaaC28EC3F61d100daF4d40471f1852");
    r.push(("USDT-WETH", m3));
    let mut m4: Vec<&'static str> = Vec::new();
    m4.push("0x60594a405d53811d3bc4766596efd80fd545a270");
    m4.push("0xc2e9f25be6257c210d7adf0d4cd6e3e881ba25f8");
    r.push(("DAI-WETH", m4));
    let mut m5: Vec<&'static str> = Vec::new();
    m5.push("0x9a772018fbd77fcd2d25657e5c547baff3fd7d16");
    m5.push("0x99ac8ca7087fa4a2a1fb6357269965a2014abc35");
    r.push(("USDC-WBTC", m5));
    let mut m6: Vec<&'static str> = Vec::new();
    m6.push("0x1d42064fc4beb5f8aaf85f4617ae8b3b5b8bd801");
    m6.push("0x11950d141ecb863f01007add7d1a342041227b58");
    m6.push("0xa6cc3c2531fdaa6ae1a3ca84c2855806728693e8");
    m6.push("0xa43fe16908251ee70ef74718545e4fe6c5ccec9f");
    r.push(("Altcoin-WETH", m6));
    r
}

/// The block at which each monthly range starts.
pub open spec fn spec_range_starts() -> Seq<u64> {
    seq![15537392u64, 15753392u64, 15969392u64, 16185392u64, 16401392u64, 16617392u64, 16833392u64, 17049392u64, 17265392u64, 17481392u64, 17697392u64, 17913392u64, 18129392u64, 18345392u64, 18561392u64, 18777392u64, 18993392u64, 19209392u64, 19425392u64, 19641392u64, 19857392u64]
}

/// The label of each monthly range, in the order of `spec_range_starts`.
pub open spec fn spec_range_labels() -> Seq<Seq<char>> {
    seq![
        "Sep 15 - Oct 15, 2022"@,
        "Oct 15 - Nov 14, 2022"@,
        "Nov 14 - Dec 14, 2022"@,
        "Dec 14 - Jan 14, 2023"@,
        "Jan 14 - Feb 13, 2023"@,
        "Feb 13 - Mar 15, 2023"@,
        "Mar 15 - Apr 15, 2023"@,
        "Apr 15 - May 15, 2023"@,
        "May 15 - Jun 14, 2023"@,
        "Jun 14 - Jul 15, 2023"@,
        "Jul 15 - Aug 14, 2023"@,
        "Aug 14 - Sep 13, 2023"@,
        "Sep 13 - Oct 14, 2023"@,
        "Oct 14 - Nov 13, 2023"@,
        "Nov 13 - Dec 13, 2023"@,
        "Dec 13 - Jan 13, 2024"@,
        "Jan 13 - Feb 13, 2024"@,
        "Feb 13 - Mar 13, 2024"@,
        "Mar 13 - Apr 13, 2024"@,
        "Apr 13 - May 14, 2024"@,
        "May 14 - Jun 1, 2024"@,
    ]
}

/// The monthly ranges: the block at which each starts, and its label.
pub fn interval_ranges() -> (r: Vec<(u64, &'static str)>)
    ensures
        r.len() == spec_range_starts().len(),
        forall|i: int| 0 <= i < r.len() ==> (#[trigger] r@[i]).0 == spec_range_starts()[i],
        forall|i: int| 0 <= i < r.len() ==> (#[trigger] r@[i]).1@ == spec_range_labels()[i],
{
    let mut r: Vec<(u64, &'static str)> = Vec::new();
    r.push((15537392, "Sep 15 - Oct 15, 2022"));
    r.push((15753392, "Oct 15 - Nov 14, 2022"));
    r.push((15969392, "Nov 14 - Dec 14, 2022"));
    r.push((16185392, "Dec 14 - Jan 14, 2023"));
    r.push((16401392, "Jan 14 - Feb 13, 2023"));
    r.push((16617392, "Feb 13 - Mar 15, 2023"));
    r.push((16833392, "Mar 15 - Apr 15, 2023"));
    r.push((17049392, "Apr 15 - May 15, 2023"));
    r.push((17265392, "May 15 - Jun 14, 2023"));
    r.push((17481392, "Jun 14 - Jul 15, 2023"));
    r.push((17697392, "Jul 15 - Aug 14, 2023"));
    r.push((17913392, "Aug 14 - Sep 13, 2023"));
    r.push((18129392, "Sep 13 - Oct 14, 2023"));
    r.push((18345392, "Oct 14 - Nov 13, 2023"));
    r.push((18561392, "Nov 13 - Dec 13, 2023"));
    r.push((18777392, "Dec 13 - Jan 13, 2024"));
    r.push((18993392, "Jan 13 - Feb 13, 2024"));
    r.push((19209392, "Feb 13 - Mar 13, 2024"));
    r.push((19425392, "Mar 13 - Apr 13, 2024"));
    r.push((19641392, "Apr 13 - May 14, 2024"));
    r.push((19857392, "May 14 - Jun 1, 2024"));
    r
}

} // verus!

verus! {

/// The first index, from `i` on, of a table entry whose ASCII lowercase is
/// `a`.
pub open spec fn spec_find_lower(table: Seq<Seq<char>>, a: Seq<char>, i: int) -> Option<int>
    decreases table.len() - i,
{
    if i < 0 || i >= table.len() {
        None
    } else if spec_lower(table[i]) == a {
        Some(i)
    } else {
        spec_find_lower(table, a, i + 1)
    }
}

/// The name shown for a pool address: the name of the first pool whose
/// lowercased address equals it, or the address itself.
pub open spec fn spec_pool_name(a: Seq<char>) -> Seq<char> {
    match spec_find_lower(spec_pool_addresses(), a, 0) {
        Some(i) => spec_pool_names()[i],
        None => a,
    }
}

/// The name of the pool whose lowercased address is `pool_address`, or
/// `pool_address` itself when no pool has it.
pub fn get_pool_name(pool_address: &str) -> (r: String)
    ensures
        r@ == spec_pool_name(pool_address@),
{
    let table = pool_table();
    let mut i: usize = 0;
    while i < table.len()
        invariant
            i <= table.len(),
            table.len() == spec_pool_addresses().len(),
            forall|q: int| 0 <= q < table.len() ==> (#[trigger] table@[q]).0@ == spec_pool_addresses()[q],
            forall|q: int| 0 <= q < table.len() ==> (#[trigger] table@[q]).1@ == spec_pool_names()[q],
            spec_find_lower(spec_pool_addresses(), pool_address@, 0)
                == spec_find_lower(spec_pool_addresses(), pool_address@, i as int),
        decreases table.len() - i,
    {
        let (addr, name) = table[i];
        if eq_lower(addr, pool_address) {
            return String::from_str(name);
        }
        i = i + 1;
    }
    String::from_str(pool_address)
}

/// The lowercased addresses of all tracked pools, in table order.
pub fn get_valid_pools() -> (r: Vec<String>)
    ensures
        r.len() == spec_pool_addresses().len(),
        forall|i: int| 0 <= i < r.len() ==> (#[trigger] r@[i])@ == spec_lower(spec_pool_addresses()[i]),
{
    let table = pool_table();
    let mut r: Vec<String> = Vec::new();
    let mut i: usize = 0;
    while i < table.len()
        invariant
            i <= table.len(),
            table.len() == spec_pool_addresses().len(),
            forall|q: int| 0 <= q < table.len() ==> (#[trigger] table@[q]).0@ == spec_pool_addresses()[q],
            r.len() == i,
            forall|q: int| 0 <= q < i ==> (#[trigger] r@[q])@ == spec_lower(spec_pool_addresses()[q]),
        decreases table.len() - i,
    {
        r.push(to_lower(table[i].0));
        i = i + 1;
    }
    r
}

/// Whether some tracked pool has the same lowercased address as `a`.
pub open spec fn spec_is_valid_pool(a: Seq<char>) -> bool {
    exists|i: int| 0 <= i < spec_pool_addresses().len()
        && spec_lower(#[trigger] spec_pool_addresses()[i]) == spec_lower(a)
}

/// Whether `pool_address`, lowercased, is one of the valid pools.
pub fn is_valid_pool(pool_address: &str) -> (r: bool)
    ensures
        r == spec_is_valid_pool(pool_address@),
{
    let lowered = to_lower(pool_address);
    let table = pool_table();
    let mut i: usize = 0;
    while i < table.len()
        invariant
            i <= table.len(),
            lowered@ == spec_lower(pool_address@),
            table.len() == spec_pool_addresses().len(),
            forall|q: int| 0 <= q < table.len() ==> (#[trigger] table@[q]).0@ == spec_pool_addresses()[q],
            forall|q: int| 0 <= q < i ==> spec_lower(#[trigger] spec_pool_addresses()[q]) != spec_lower(pool_address@),
        decreases table.len() - i,
    {
        if eq_lower(table[i].0, lowered.as_str()) {
            assert(spec_lower(spec_pool_addresses()[i as int]) == spec_lower(pool_address@));
            return true;
        }
        i = i + 1;
    }
    false
}

/// The first cluster, from `i` on, among whose members `a` is written.
pub open spec fn spec_cluster_index(a: Seq<char>, i: int) -> Option<int>
    decreases spec_cluster_members().len() - i,
{
    if i < 0 || i >= spec_cluster_members().len() {
        None
    } else if spec_cluster_members()[i].contains(a) {
        Some(i)
    } else {
        spec_cluster_index(a, i + 1)
    }
}

/// The cluster of a pool: the first cluster table that holds the pool's
/// lowercased address exactly as written.
pub open spec fn spec_cluster_name(a: Seq<char>) -> Option<Seq<char>> {
    match spec_cluster_index(spec_lower(a), 0) {
        Some(i) => Some(spec_cluster_names()[i]),
        None => None,
    }
}

/// The name of the cluster of `pool_address`, if it belongs to one.
pub fn get_cluster_name(pool_address: &str) -> (r: Option<&'static str>)
    ensures
        match r {
            Some(n) => spec_cluster_name(pool_address@) == Some(n@),
            None => spec_cluster_name(pool_address@) is None,
        },
{
    let address = to_lower(pool_address);
    let ghost a = spec_lower(pool_address@);
    let table = cluster_table();
    let mut i: usize = 0;
    while i < table.len()
        invariant
            i <= table.len(),
            address@ == a,
            a == spec_lower(pool_address@),
            table.len() == spec_cluster_names().len(),
            spec_cluster_names().len() == spec_cluster_members().len(),
            forall|q: int| 0 <= q < table.len() ==> (#[trigger] table@[q]).0@ == spec_cluster_names()[q],
            forall|q: int|
                0 <= q < table.len() ==> (#[trigger] table@[q]).1.len() == spec_cluster_members()[q].len(),
            forall|q: int, j: int|
                0 <= q < table.len() && 0 <= j < table@[q].1.len() ==> (#[trigger] table@[q].1@[j])@
                    == spec_cluster_members()[q][j],
            spec_cluster_index(a, 0) == spec_cluster_index(a, i as int),
        decreases table.len() - i,
    {
        let members = &table[i].1;
        let mut j: usize = 0;
        while j < members.len()
            invariant
                j <= members.len(),
                i < table.len(),
                members == table@[i as int].1,
                address@ == a,
                members.len() == spec_cluster_members()[i as int].len(),
                forall|q: int| 0 <= q < members.len() ==> (#[trigger] members@[q])@ == spec_cluster_members()[i as int][q],
                forall|q: int| 0 <= q < j ==> spec_cluster_members()[i as int][q] != a,
                spec_cluster_index(a, 0) == spec_cluster_index(a, i as int),
                a == spec_lower(pool_address@),
                table.len() == spec_cluster_names().len(),
                spec_cluster_names().len() == spec_cluster_members().len(),
                forall|q: int| 0 <= q < table.len() ==> (#[trigger] table@[q]).0@ == spec_cluster_names()[q],
            decreases members.len() - j,
        {
            if eq_str(members[j], address.as_str()) {
                assert(spec_cluster_members()[i as int][j as int] == a);
                assert(spec_cluster_members()[i as int].contains(a));
                return Some(table[i].0);
            }
            j = j + 1;
        }
        assert(!spec_cluster_members()[i as int].contains(a));
        i = i + 1;
    }
    None
}

/// The block at which a pool was deployed: four pools were deployed after
/// the merge; all others count from block zero.
pub open spec fn spec_deployment_block(a: Seq<char>) -> u64 {
    let l = spec_lower(a);
    if l == "0x11950d141ecb863f01007add7d1a342041227b58"@ {
        PEPE_DEPLOYMENT_V3
    } else if l == "0xa43fe16908251ee70ef74718545e4fe6c5ccec9f"@ {
        PEPE_DEPLOYMENT_V2
    } else if l == "0x435664008f38b0650fbc1c9fc971d0a3bc2f1e47"@ {
        USDE_USDT_DEPLOYMENT
    } else if l == "0xc7bbec68d12a0d1830360f8ec58fa599ba1b0e9b"@ {
        WETH_USDT_100_DEPLOYMENT
    } else {
        0
    }
}

/// The deployment block of a pool (see `spec_deployment_block`).
pub fn get_deployment_block(pool_address: &str) -> (r: u64)
    ensures
        r == spec_deployment_block(pool_address@),
{
    if eq_lower(pool_address, "0x11950d141ecb863f01007add7d1a342041227b58") {
        PEPE_DEPLOYMENT_V3
    } else if eq_lower(pool_address, "0xa43fe16908251ee70ef74718545e4fe6c5ccec9f") {
        PEPE_DEPLOYMENT_V2
    } else if eq_lower(pool_address, "0x435664008f38b0650fbc1c9fc971d0a3bc2f1e47") {
        USDE_USDT_DEPLOYMENT
    } else if eq_lower(pool_address, "0xc7bbec68d12a0d1830360f8ec58fa599ba1b0e9b") {
        WETH_USDT_100_DEPLOYMENT
    } else {
        0
    }
}

/// The label of the monthly range starting at block `b`, if any.
pub open spec fn spec_range_label(b: u64) -> Option<Seq<char>> {
    if exists|i: int| 0 <= i < spec_range_starts().len() && spec_range_starts()[i] == b {
        let i = choose|i: int| 0 <= i < spec_range_starts().len() && spec_range_starts()[i] == b;
        Some(spec_range_labels()[i])
    } else {
        None
    }
}

/// The label of the monthly range that starts at `start_block`, if one
/// does.
pub fn interval_range_label(start_block: u64) -> (r: Option<&'static str>)
    ensures
        match r {
            Some(l) => spec_range_label(start_block) == Some(l@),
            None => spec_range_label(start_block) is None,
        },
{
    let table = interval_ranges();
    let mut i: usize = 0;
    while i < table.len()
        invariant
            i <= table.len(),
            table.len() == spec_range_starts().len(),
            forall|q: int| 0 <= q < table.len() ==> (#[trigger] table@[q]).0 == spec_range_starts()[q],
            forall|q: int| 0 <= q < table.len() ==> (#[trigger] table@[q]).1@ == spec_range_labels()[q],
            forall|q: int| 0 <= q < i ==> spec_range_starts()[q] != start_block,
        decreases table.len() - i,
    {
        if table[i].0 == start_block {
            proof {
                let q = choose|q: int| 0 <= q < spec_range_starts().len() && spec_range_starts()[q] == start_block;
                // the starts are distinct, so the chosen index is i
                assert(q == i) by {
                    assert(forall|x: int, y: int| 0 <= x < y < spec_range_starts().len()
                        ==> spec_range_starts()[x] < spec_range_starts()[y]);
                }
            }
            return Some(table[i].1);
        }
        i = i + 1;
    }
    None
}

} // verus!
