//! Properties that hold across the engine's functions.
use vstd::prelude::*;
use crate::allocator::{
    block_addr_text, block_free, first_free, holds_ip, holds_text, mac_text, ordinal_text,
    range_block, range_has_free,
};
use crate::engine::{
    auto_ranges_of, blocks_of, chosen_block, first_entry_for, first_host_named, first_offset,
    first_subnet_named, has_mac, host_id_issued, host_resolved, id_taken, ip_issued, ip_resolved,
    ip_taken, lemma_autos_prefix, mac_issued, mac_start, mac_taken, macs_after, offered_host, offered_ip,
    push_new, host_ids_after, entries_after, ips_after, subnet_ids_after,
    offered_subnet_id, resolved_from, subnet_id_issued, subnet_resolved, taken_before,
};
use crate::net::{gateway, host_mask, ipv4_text, lemma_cidr_text_injective, Cidr};
use crate::ops::{
    host_ops, hosts_ops, network_ops, nic_ops, nics_ops, primary_nic_ops, roles_ops, subnet_ops,
    OpView,
};
use crate::schema::{str_views, ExpandedHost, ExpandedSubnet, IncusCompose, IncusLockfile, UsedValues};

verus! {

proof fn lemma_network_ops_kinds(subs: Seq<ExpandedSubnet>)
    ensures
        forall|k: int| 0 <= k < network_ops(subs).len() ==> !(#[trigger] network_ops(subs)[k] is InstanceCreate),
    decreases subs.len(),
{
    if subs.len() > 0 {
        lemma_network_ops_kinds(subs.drop_last());
        let a = network_ops(subs.drop_last());
        let b = subnet_ops(subs.last());
        assert forall|k: int| 0 <= k < network_ops(subs).len() implies !(#[trigger] network_ops(subs)[k] is InstanceCreate) by {
            if k < a.len() {
                assert(network_ops(subs)[k] == a[k]);
            } else {
                assert(network_ops(subs)[k] == b[k - a.len()]);
            }
        }
    }
}

proof fn lemma_nics_ops_kinds(h: ExpandedHost, n: int)
    ensures
        forall|k: int| 0 <= k < nics_ops(h, n).len() ==> !(#[trigger] nics_ops(h, n)[k] is NetworkCreate),
    decreases n,
{
    if n > 0 {
        lemma_nics_ops_kinds(h, n - 1);
        let a = nics_ops(h, n - 1);
        let b = nic_ops(h, n - 1);
        assert forall|k: int| 0 <= k < nics_ops(h, n).len() implies !(#[trigger] nics_ops(h, n)[k] is NetworkCreate) by {
            if k < a.len() {
                assert(nics_ops(h, n)[k] == a[k]);
            } else {
                assert(nics_ops(h, n)[k] == b[k - a.len()]);
            }
        }
    }
}

proof fn lemma_roles_ops_kinds(h: ExpandedHost, n: int)
    ensures
        forall|k: int| 0 <= k < roles_ops(h, n).len() ==> (#[trigger] roles_ops(h, n)[k]) is RoleDirective,
    decreases n,
{
    if n > 0 {
        lemma_roles_ops_kinds(h, n - 1);
        let a = roles_ops(h, n - 1);
        assert forall|k: int| 0 <= k < roles_ops(h, n).len() implies (#[trigger] roles_ops(h, n)[k]) is RoleDirective by {
            if k < a.len() {
                assert(roles_ops(h, n)[k] == a[k]);
            }
        }
    }
}

proof fn lemma_host_ops_kinds(h: ExpandedHost)
    ensures
        forall|k: int| 0 <= k < host_ops(h).len() ==> !(#[trigger] host_ops(h)[k] is NetworkCreate),
{
    lemma_nics_ops_kinds(h, h.subnets@.len() as int);
    lemma_roles_ops_kinds(h, h.roles@.len() as int);
    let head = seq![
        OpView::InstanceCreate { image: h.image@, instance: h.name@, kind: h.instance_type },
        OpView::SetCpuLimit { instance: h.name@, cores: h.resources.cpu.cores },
        OpView::SetMemoryLimit { instance: h.name@, limit: h.resources.memory.limit@ },
    ];
    let p = primary_nic_ops(h);
    let nics = nics_ops(h, h.subnets@.len() as int);
    let roles = roles_ops(h, h.roles@.len() as int);
    let tail = seq![OpView::InstanceStart { instance: h.name@ }];
    assert(host_ops(h) == head + p + nics + roles + tail);
    assert forall|k: int| 0 <= k < host_ops(h).len() implies !(#[trigger] host_ops(h)[k] is NetworkCreate) by {
        let o = host_ops(h)[k];
        let a1 = head.len() as int;
        let a2 = a1 + p.len();
        let a3 = a2 + nics.len();
        let a4 = a3 + roles.len();
        if k < a1 {
            assert(o == head[k]);
        } else if k < a2 {
            assert(o == p[k - a1]);
        } else if k < a3 {
            assert(o == nics[k - a2]);
        } else if k < a4 {
            assert(o == roles[k - a3]);
        } else {
            assert(o == tail[k - a4]);
        }
    }
}

proof fn lemma_hosts_ops_kinds(hs: Seq<ExpandedHost>)
    ensures
        forall|k: int| 0 <= k < hosts_ops(hs).len() ==> !(#[trigger] hosts_ops(hs)[k] is NetworkCreate),
    decreases hs.len(),
{
    if hs.len() > 0 {
        lemma_hosts_ops_kinds(hs.drop_last());
        lemma_host_ops_kinds(hs.last());
        let a = hosts_ops(hs.drop_last());
        let b = host_ops(hs.last());
        assert forall|k: int| 0 <= k < hosts_ops(hs).len() implies !(#[trigger] hosts_ops(hs)[k] is NetworkCreate) by {
            if k < a.len() {
                assert(hosts_ops(hs)[k] == a[k]);
            } else {
                assert(hosts_ops(hs)[k] == b[k - a.len()]);
            }
        }
    }
}

/// In the directives of any resolved state, every network creation comes
/// before every instance creation.
pub proof fn lemma_networks_before_instances(l: IncusLockfile)
    ensures
        forall|i: int, j: int|
            0 <= i < l.ops().len() && 0 <= j < l.ops().len() && (#[trigger] l.ops()[i]) is NetworkCreate
                && (#[trigger] l.ops()[j]) is InstanceCreate ==> i < j,
{
    let a = network_ops(l.subnets@);
    let b = hosts_ops(l.hosts@);
    lemma_network_ops_kinds(l.subnets@);
    lemma_hosts_ops_kinds(l.hosts@);
    assert forall|i: int, j: int|
        0 <= i < l.ops().len() && 0 <= j < l.ops().len() && (#[trigger] l.ops()[i]) is NetworkCreate
            && (#[trigger] l.ops()[j]) is InstanceCreate implies i < j by {
        if i >= a.len() {
            assert(l.ops()[i] == b[i - a.len()]);
        }
        if j < a.len() {
            assert(l.ops()[j] == a[j]);
        }
    }
}

/// A host whose name the prior state does not hold receives an identifier
/// and a hardware address that the prior state's ledger never recorded: the
/// ledger is carried forward and never purged, so nothing issued to a removed
/// host is issued again.
pub proof fn lemma_new_host_values_never_reissued(
    doc: IncusCompose,
    prior: IncusLockfile,
    l0: UsedValues,
    l: IncusLockfile,
    i: int,
)
    requires
        resolved_from(doc, Some(prior), l0, l),
        0 <= i < l.hosts@.len(),
        forall|j: int| 0 <= j < prior.hosts@.len() ==> (#[trigger] prior.hosts@[j]).name@ != doc.hosts@[i].name@,
    ensures
        !holds_text(prior.metadata.used_values.host_ids@, l.hosts@[i].id@),
        l.hosts@[i].mac_address is Some,
        !holds_text(prior.metadata.used_values.mac_addresses@, l.hosts@[i].mac_address->0@),
{
    let h = l.hosts@[i];
    assert(host_resolved(doc, Some(prior), l.subnets@, blocks_of(l.subnets@), l0, l.hosts@.subrange(0, i), h, i, mac_start(l0, l.hosts@.subrange(0, i))));
    assert(!exists|k: int| first_host_named(prior.hosts@, doc.hosts@[i].name@, k));
    assert(offered_host(Some(prior), doc.hosts@[i].name@) is None);
    assert(l0.host_ids@ == prior.metadata.used_values.host_ids@);
    assert(l0.mac_addresses@ == prior.metadata.used_values.mac_addresses@);
}

/// If the prior state's ledger records every identifier and hardware address
/// it holds, a host whose name the prior state does not hold receives none of
/// the prior hosts' identifiers or hardware addresses.
pub proof fn lemma_new_host_differs_from_prior_hosts(
    doc: IncusCompose,
    prior: IncusLockfile,
    l0: UsedValues,
    l: IncusLockfile,
    i: int,
)
    requires
        resolved_from(doc, Some(prior), l0, l),
        prior.ledger_complete(),
        0 <= i < l.hosts@.len(),
        forall|j: int| 0 <= j < prior.hosts@.len() ==> (#[trigger] prior.hosts@[j]).name@ != doc.hosts@[i].name@,
    ensures
        forall|j: int| 0 <= j < prior.hosts@.len() ==> (#[trigger] prior.hosts@[j]).id@ != l.hosts@[i].id@,
        forall|j: int| 0 <= j < prior.hosts@.len() ==> !has_mac(#[trigger] prior.hosts@[j], l.hosts@[i].mac_address->0@),
{
    lemma_new_host_values_never_reissued(doc, prior, l0, l, i);
    assert forall|j: int| 0 <= j < prior.hosts@.len() implies (#[trigger] prior.hosts@[j]).id@ != l.hosts@[i].id@
        && !has_mac(prior.hosts@[j], l.hosts@[i].mac_address->0@) by {
        assert(holds_text(prior.metadata.used_values.host_ids@, prior.hosts@[j].id@));
        if let Some(m) = prior.hosts@[j].mac_address {
            assert(holds_text(prior.metadata.used_values.mac_addresses@, m@));
        }
    }
}

/// `prior` describes the same hosts (names and subnet lists) and the same
/// subnet names as `doc`, in the same order.
pub open spec fn same_shape(doc: IncusCompose, prior: IncusLockfile) -> bool {
    &&& prior.hosts@.len() == doc.hosts@.len()
    &&& forall|i: int|
        0 <= i < prior.hosts@.len() ==> (#[trigger] prior.hosts@[i]).name@ == doc.hosts@[i].name@
            && str_views(prior.hosts@[i].subnets@) == str_views(doc.hosts@[i].subnets@)
    &&& prior.subnets@.len() == doc.subnets@.len()
    &&& forall|j: int| 0 <= j < prior.subnets@.len() ==> (#[trigger] prior.subnets@[j]).name@ == doc.subnet_names()[j]
}

proof fn lemma_offered_subnet(doc: IncusCompose, prior: IncusLockfile, j: int, c: Seq<char>)
    requires
        doc.well_formed(),
        same_shape(doc, prior),
        0 <= j < doc.subnets@.len(),
    ensures
        offered_subnet_id(Some(prior), doc.subnet_names()[j], c) == if prior.subnets@[j].cidr@ == c {
            Some(prior.subnets@[j].id@)
        } else {
            None
        },
{
    let n = doc.subnet_names()[j];
    assert forall|i: int| 0 <= i < j implies (#[trigger] prior.subnets@[i]).name@ != n by {
        assert(doc.subnet_names()[i] != doc.subnet_names()[j]);
    }
    assert(first_subnet_named(prior.subnets@, n, j));
    let ci = choose|ci: int| first_subnet_named(prior.subnets@, n, ci);
    if ci < j {
        assert(prior.subnets@[ci].name@ != n);
    }
    if j < ci {
        assert(prior.subnets@[j].name@ != n);
    }
}

/// Against a prior state of the same shape, every subnet whose block text is
/// unchanged keeps its identifier and gateway.
pub proof fn lemma_unchanged_subnets_keep_ids(doc: IncusCompose, prior: IncusLockfile, l0: UsedValues, l: IncusLockfile)
    requires
        doc.well_formed(),
        prior.wf(),
        same_shape(doc, prior),
        resolved_from(doc, Some(prior), l0, l),
    ensures
        forall|j: int|
            0 <= j < l.subnets@.len() && (#[trigger] l.subnets@[j]).cidr@ == prior.subnets@[j].cidr@
                ==> l.subnets@[j].id@ == prior.subnets@[j].id@,
{
    let subs = l.subnets@;
    let bl = blocks_of(subs);
    assert forall|i: int| 0 <= i < subs.len() implies (#[trigger] subs[i]).id@ == prior.subnets@[i].id@ || !holds_text(
        l0.subnet_ids@,
        subs[i].id@,
    ) by {
        assert(subnet_resolved(doc, Some(prior), l0, subs, bl, i));
        lemma_offered_subnet(doc, prior, i, subs[i].cidr@);
    }
    assert forall|j: int|
        0 <= j < subs.len() && (#[trigger] subs[j]).cidr@ == prior.subnets@[j].cidr@ implies subs[j].id@
            == prior.subnets@[j].id@ by {
        assert(subnet_resolved(doc, Some(prior), l0, subs, bl, j));
        lemma_offered_subnet(doc, prior, j, subs[j].cidr@);
        let pid = prior.subnets@[j].id@;
        assert(holds_text(prior.metadata.used_values.subnet_ids@, prior.subnets@[j].id@));
        assert forall|i: int| 0 <= i < j implies (#[trigger] subs[i]).id@ != pid by {
            assert(subs[i].id@ == prior.subnets@[i].id@ || !holds_text(l0.subnet_ids@, subs[i].id@));
        }
    }
}

proof fn lemma_offered_host(doc: IncusCompose, prior: IncusLockfile, i: int)
    requires
        doc.well_formed(),
        same_shape(doc, prior),
        0 <= i < doc.hosts@.len(),
    ensures
        offered_host(Some(prior), doc.hosts@[i].name@) == Some(prior.hosts@[i]),
{
    let n = doc.hosts@[i].name@;
    assert forall|j: int| 0 <= j < i implies (#[trigger] prior.hosts@[j]).name@ != n by {
        assert(doc.host_names()[j] != doc.host_names()[i]);
    }
    assert(first_host_named(prior.hosts@, n, i));
    let ci = choose|ci: int| first_host_named(prior.hosts@, n, ci);
    if ci < i {
        assert(prior.hosts@[ci].name@ != n);
    }
    if i < ci {
        assert(prior.hosts@[i].name@ != n);
    }
}

/// Against a prior state of the same shape, every host keeps its identifier
/// and hardware address.
pub proof fn lemma_hosts_keep_ids(doc: IncusCompose, prior: IncusLockfile, l0: UsedValues, l: IncusLockfile)
    requires
        doc.well_formed(),
        prior.wf(),
        same_shape(doc, prior),
        resolved_from(doc, Some(prior), l0, l),
    ensures
        forall|i: int| 0 <= i < l.hosts@.len() ==> (#[trigger] l.hosts@[i]).id@ == prior.hosts@[i].id@,
        forall|i: int|
            0 <= i < l.hosts@.len() ==> (#[trigger] l.hosts@[i]).mac_address is Some
                && l.hosts@[i].mac_address->0@ == prior.hosts@[i].mac_address->0@,
{
    let hs = l.hosts@;
    let ph = prior.hosts@;
    let bl = blocks_of(l.subnets@);
    assert forall|i: int| 0 <= i < hs.len() implies {
        &&& (#[trigger] hs[i]).id@ == ph[i].id@ || !holds_text(l0.host_ids@, hs[i].id@)
        &&& hs[i].mac_address is Some
        &&& (hs[i].mac_address->0@ == ph[i].mac_address->0@ || !holds_text(
            l0.mac_addresses@,
            hs[i].mac_address->0@,
        ))
    } by {
        assert(host_resolved(doc, Some(prior), l.subnets@, bl, l0, hs.subrange(0, i), hs[i], i, mac_start(l0, hs.subrange(0, i))));
        lemma_offered_host(doc, prior, i);
    }
    assert forall|i: int| 0 <= i < hs.len() implies (#[trigger] hs[i]).id@ == ph[i].id@ && hs[i].mac_address is Some
        && hs[i].mac_address->0@ == ph[i].mac_address->0@ by {
        let pre = hs.subrange(0, i);
        assert(host_resolved(doc, Some(prior), l.subnets@, bl, l0, pre, hs[i], i, mac_start(l0, pre)));
        lemma_offered_host(doc, prior, i);
        assert(holds_text(prior.metadata.used_values.host_ids@, ph[i].id@));
        assert(ph[i].mac_address is Some);
        assert(holds_text(prior.metadata.used_values.mac_addresses@, ph[i].mac_address->0@));
        assert(!id_taken(pre, ph[i].id@)) by {
            assert forall|j: int| 0 <= j < pre.len() implies (#[trigger] pre[j]).id@ != ph[i].id@ by {
                assert(pre[j] == hs[j]);
                assert(hs[j].id@ == ph[j].id@ || !holds_text(l0.host_ids@, hs[j].id@));
            }
        }
        assert(!mac_taken(pre, ph[i].mac_address->0@)) by {
            assert forall|j: int| 0 <= j < pre.len() implies !has_mac(#[trigger] pre[j], ph[i].mac_address->0@) by {
                assert(pre[j] == hs[j]);
                assert(hs[j].mac_address->0@ == ph[j].mac_address->0@ || !holds_text(
                    l0.mac_addresses@,
                    hs[j].mac_address->0@,
                ));
            }
        }
    }
}

/// Each address entry of host `i` is the prior state's offer, or was never
/// issued in its subnet before.
proof fn lemma_address_origin(
    doc: IncusCompose,
    prior: IncusLockfile,
    l0: UsedValues,
    l: IncusLockfile,
    i: int,
    k: int,
    j: int,
)
    requires
        doc.well_formed(),
        prior.wf(),
        same_shape(doc, prior),
        resolved_from(doc, Some(prior), l0, l),
        0 <= i < l.hosts@.len(),
        0 <= k < l.hosts@[i].ip_addresses@.len(),
        0 <= j < l.subnets@.len(),
        l.subnets@[j].name@ == l.hosts@[i].ip_addresses@[k].0@,
    ensures
        ({
            let e = l.hosts@[i].ip_addresses@[k];
            let offered = offered_ip(Some(prior), doc.hosts@[i].name@, e.0@, l.subnets@[j].cidr@);
            &&& e.0@ == doc.hosts@[i].subnets@[k]@
            &&& (offered is Some ==> exists|kk: int|
                0 <= kk < prior.hosts@[i].ip_addresses@.len() && (#[trigger] prior.hosts@[i].ip_addresses@[kk]).0@
                    == e.0@ && offered->0 == prior.hosts@[i].ip_addresses@[kk].1@)
            &&& (offered is Some && !ip_taken(l.hosts@.subrange(0, i), e.0@, offered->0) ==> e.1@
                == offered->0)
            &&& ((offered is Some && !ip_taken(l.hosts@.subrange(0, i), e.0@, offered->0)) || !holds_ip(
                l0.ip_addresses@,
                e.0@,
                e.1@,
            ))
        }),
{
    let hs = l.hosts@;
    let bl = blocks_of(l.subnets@);
    assert(host_resolved(doc, Some(prior), l.subnets@, bl, l0, hs.subrange(0, i), hs[i], i, mac_start(l0, hs.subrange(0, i))));
    let e = hs[i].ip_addresses@[k];
    assert(ip_resolved(Some(prior), l.subnets@, bl, l0, hs.subrange(0, i), doc.hosts@[i], e, k));
    lemma_offered_host(doc, prior, i);
    let offered = offered_ip(Some(prior), doc.hosts@[i].name@, e.0@, l.subnets@[j].cidr@);
    if offered is Some {
        let ph = prior.hosts@[i];
        let kk = choose|kk: int| first_entry_for(ph.ip_addresses@, e.0@, kk);
        assert(ph.ip_addresses@[kk].0@ == e.0@);
    }
}

/// Against a prior state of the same shape, a host keeps its address in each
/// subnet whose block text is unchanged.
pub proof fn lemma_unchanged_subnet_addresses_kept(
    doc: IncusCompose,
    prior: IncusLockfile,
    l0: UsedValues,
    l: IncusLockfile,
)
    requires
        doc.well_formed(),
        prior.wf(),
        same_shape(doc, prior),
        resolved_from(doc, Some(prior), l0, l),
    ensures
        forall|i: int, k: int, j: int|
            0 <= i < l.hosts@.len() && 0 <= k < l.hosts@[i].ip_addresses@.len() && 0 <= j
                < l.subnets@.len() && (#[trigger] l.subnets@[j]).name@ == (#[trigger] l.hosts@[i].ip_addresses@[k]).0@
                && l.subnets@[j].cidr@ == prior.subnets@[j].cidr@ ==> l.hosts@[i].ip_addresses@[k].1@
                == prior.hosts@[i].ip_addresses@[k].1@,
{
    let hs = l.hosts@;
    let subs = l.subnets@;
    let bl = blocks_of(subs);
    assert forall|i: int, k: int, j: int|
        0 <= i < hs.len() && 0 <= k < hs[i].ip_addresses@.len() && 0 <= j < subs.len()
            && (#[trigger] subs[j]).name@ == (#[trigger] hs[i].ip_addresses@[k]).0@ && subs[j].cidr@
            == prior.subnets@[j].cidr@ implies hs[i].ip_addresses@[k].1@ == prior.hosts@[i].ip_addresses@[k].1@ by {
        let d = doc.hosts@[i];
        let ph = prior.hosts@[i];
        let e = hs[i].ip_addresses@[k];
        let n = e.0@;
        lemma_address_origin(doc, prior, l0, l, i, k, j);
        assert(host_resolved(doc, Some(prior), subs, bl, l0, hs.subrange(0, i), hs[i], i, mac_start(l0, hs.subrange(0, i))));
        assert(subnet_resolved(doc, Some(prior), l0, subs, bl, j));
        lemma_offered_subnet(doc, prior, j, subs[j].cidr@);
        lemma_offered_host(doc, prior, i);
        assert(offered_subnet_id(Some(prior), n, subs[j].cidr@) is Some);
        // the prior host's entry for this subnet is its `k`-th
        assert(ph.ip_addresses@.len() == ph.subnets@.len());
        assert(str_views(ph.subnets@).len() == ph.subnets@.len());
        assert(str_views(d.subnets@).len() == d.subnets@.len());
        assert(str_views(ph.subnets@)[k] == str_views(d.subnets@)[k]);
        assert(ph.ip_addresses@[k].0@ == ph.subnets@[k]@);
        assert forall|x: int| 0 <= x < k implies (#[trigger] ph.ip_addresses@[x]).0@ != n by {
            assert(str_views(ph.subnets@)[x] == str_views(d.subnets@)[x]);
            assert(ph.ip_addresses@[x].0@ == ph.subnets@[x]@);
            assert(str_views(d.subnets@)[x] != str_views(d.subnets@)[k]);
        }
        assert(first_entry_for(ph.ip_addresses@, n, k));
        let c = choose|c: int| first_entry_for(ph.ip_addresses@, n, c);
        if c < k {
            assert(ph.ip_addresses@[c].0@ != n);
        }
        if k < c {
            assert(ph.ip_addresses@[k].0@ != n);
        }
        let a = ph.ip_addresses@[k].1@;
        assert(offered_ip(Some(prior), d.name@, n, subs[j].cidr@) == Some(a));
        assert(holds_ip(prior.metadata.used_values.ip_addresses@, n, a));
        let pre = hs.subrange(0, i);
        assert(!ip_taken(pre, n, a)) by {
            assert forall|i2: int, k2: int|
                0 <= i2 < pre.len() && 0 <= k2 < pre[i2].ip_addresses@.len() implies !((#[trigger] pre[i2].ip_addresses@[k2]).0@
                    == n && pre[i2].ip_addresses@[k2].1@ == a) by {
                assert(pre[i2] == hs[i2]);
                if hs[i2].ip_addresses@[k2].0@ == n {
                    lemma_address_origin(doc, prior, l0, l, i2, k2, j);
                    let e2 = hs[i2].ip_addresses@[k2];
                    let off2 = offered_ip(Some(prior), doc.hosts@[i2].name@, n, subs[j].cidr@);
                    if off2 is Some && !ip_taken(hs.subrange(0, i2), n, off2->0) {
                        let kk = choose|kk: int|
                            0 <= kk < prior.hosts@[i2].ip_addresses@.len() && (#[trigger] prior.hosts@[i2].ip_addresses@[kk]).0@
                                == n && off2->0 == prior.hosts@[i2].ip_addresses@[kk].1@;
                        assert(prior.hosts@[i2].ip_addresses@[kk].0@ == prior.hosts@[i].ip_addresses@[k].0@);
                    }
                }
            }
        }
    }
}

proof fn lemma_chosen_unique(ranges: Seq<(Cidr, Cidr)>, taken: Seq<Cidr>, c1: Cidr, c2: Cidr)
    requires
        chosen_block(ranges, taken, c1),
        chosen_block(ranges, taken, c2),
    ensures
        c1 == c2,
{
    let (i1, k1) = choose|i: int, k: nat|
        0 <= i < ranges.len() && (forall|i2: int|
            0 <= i2 < i ==> !range_has_free(#[trigger] ranges[i2].0, ranges[i2].1, taken)) && first_free(
            ranges[i].0,
            ranges[i].1,
            k,
            taken,
        ) && c1 == range_block(ranges[i].0, k);
    let (i2, k2) = choose|i: int, k: nat|
        0 <= i < ranges.len() && (forall|i2: int|
            0 <= i2 < i ==> !range_has_free(#[trigger] ranges[i2].0, ranges[i2].1, taken)) && first_free(
            ranges[i].0,
            ranges[i].1,
            k,
            taken,
        ) && c2 == range_block(ranges[i].0, k);
    if i1 < i2 {
        assert(range_has_free(ranges[i1].0, ranges[i1].1, taken));
    }
    if i2 < i1 {
        assert(range_has_free(ranges[i2].0, ranges[i2].1, taken));
    }
    assert(i1 == i2);
    if k1 < k2 {
        assert(block_free(ranges[i1].0, ranges[i1].1, k1, taken));
    }
    if k2 < k1 {
        assert(block_free(ranges[i1].0, ranges[i1].1, k2, taken));
    }
}

proof fn lemma_same_blocks_upto(
    doc: IncusCompose,
    prior_a: Option<IncusLockfile>,
    l1: UsedValues,
    s1: IncusLockfile,
    prior_b: Option<IncusLockfile>,
    l2: UsedValues,
    s2: IncusLockfile,
    n: int,
)
    requires
        resolved_from(doc, prior_a, l1, s1),
        resolved_from(doc, prior_b, l2, s2),
        0 <= n <= doc.subnets@.len(),
    ensures
        forall|j: int| 0 <= j < n ==> blocks_of(s1.subnets@)[j] == #[trigger] blocks_of(s2.subnets@)[j],
    decreases n,
{
    if n > 0 {
        lemma_same_blocks_upto(doc, prior_a, l1, s1, prior_b, l2, s2, n - 1);
        let j = n - 1;
        let b1 = blocks_of(s1.subnets@);
        let b2 = blocks_of(s2.subnets@);
        assert(subnet_resolved(doc, prior_a, l1, s1.subnets@, b1, j));
        assert(subnet_resolved(doc, prior_b, l2, s2.subnets@, b2, j));
        if doc.explicit_block(j) is None {
            lemma_autos_prefix(doc, b1, b2, j);
            assert(taken_before(doc, b1, j) == taken_before(doc, b2, j));
            lemma_chosen_unique(auto_ranges_of(doc.defaults.cidr4_ranges@), taken_before(doc, b1, j), b1[j], b2[j]);
        }
    }
}

/// Two states resolved from the same document, against any prior states,
/// give every subnet the same block.
pub proof fn lemma_same_blocks(
    doc: IncusCompose,
    prior_a: Option<IncusLockfile>,
    l1: UsedValues,
    s1: IncusLockfile,
    prior_b: Option<IncusLockfile>,
    l2: UsedValues,
    s2: IncusLockfile,
)
    requires
        resolved_from(doc, prior_a, l1, s1),
        resolved_from(doc, prior_b, l2, s2),
    ensures
        forall|j: int| 0 <= j < s1.subnets@.len() ==> (#[trigger] s1.subnets@[j]).cidr@ == s2.subnets@[j].cidr@,
{
    lemma_same_blocks_upto(doc, prior_a, l1, s1, prior_b, l2, s2, doc.subnets@.len() as int);
    assert forall|j: int| 0 <= j < s1.subnets@.len() implies (#[trigger] s1.subnets@[j]).cidr@ == s2.subnets@[j].cidr@ by {
        assert(subnet_resolved(doc, prior_a, l1, s1.subnets@, blocks_of(s1.subnets@), j));
        assert(subnet_resolved(doc, prior_b, l2, s2.subnets@, blocks_of(s2.subnets@), j));
        assert(blocks_of(s1.subnets@)[j] == blocks_of(s2.subnets@)[j]);
    }
}

proof fn lemma_shape_of_resolved(doc: IncusCompose, earlier: Option<IncusLockfile>, l00: UsedValues, prior: IncusLockfile)
    requires
        resolved_from(doc, earlier, l00, prior),
    ensures
        same_shape(doc, prior),
{
    assert forall|i: int| 0 <= i < prior.hosts@.len() implies (#[trigger] prior.hosts@[i]).name@ == doc.hosts@[i].name@
        && str_views(prior.hosts@[i].subnets@) == str_views(doc.hosts@[i].subnets@) by {
        assert(host_resolved(doc, earlier, prior.subnets@, blocks_of(prior.subnets@), l00, prior.hosts@.subrange(0, i), prior.hosts@[i], i, mac_start(l00, prior.hosts@.subrange(0, i))));
    }
    assert forall|j: int| 0 <= j < prior.subnets@.len() implies (#[trigger] prior.subnets@[j]).name@ == doc.subnet_names()[j] by {
        assert(subnet_resolved(doc, earlier, l00, prior.subnets@, blocks_of(prior.subnets@), j));
    }
}

/// Stability: resolving an unchanged document against a state resolved from
/// it keeps every subnet's block, identifier and gateway, and every host's
/// identifier, hardware address and addresses.
pub proof fn lemma_unchanged_document_is_stable(
    doc: IncusCompose,
    earlier: Option<IncusLockfile>,
    l00: UsedValues,
    prior: IncusLockfile,
    l0: UsedValues,
    l: IncusLockfile,
)
    requires
        doc.well_formed(),
        doc.references_resolve(),
        resolved_from(doc, earlier, l00, prior),
        prior.wf(),
        resolved_from(doc, Some(prior), l0, l),
    ensures
        l.subnets@.len() == prior.subnets@.len(),
        forall|j: int|
            0 <= j < l.subnets@.len() ==> (#[trigger] l.subnets@[j]).cidr@ == prior.subnets@[j].cidr@
                && l.subnets@[j].id@ == prior.subnets@[j].id@ && l.subnets@[j].gateway@
                == prior.subnets@[j].gateway@,
        l.hosts@.len() == prior.hosts@.len(),
        forall|i: int|
            0 <= i < l.hosts@.len() ==> (#[trigger] l.hosts@[i]).id@ == prior.hosts@[i].id@
                && l.hosts@[i].mac_address is Some && l.hosts@[i].mac_address->0@
                == prior.hosts@[i].mac_address->0@ && l.hosts@[i].ip_addresses@.len()
                == prior.hosts@[i].ip_addresses@.len(),
        forall|i: int, k: int|
            0 <= i < l.hosts@.len() && 0 <= k < l.hosts@[i].ip_addresses@.len() ==> (#[trigger] l.hosts@[i].ip_addresses@[k]).0@
                == prior.hosts@[i].ip_addresses@[k].0@ && l.hosts@[i].ip_addresses@[k].1@
                == prior.hosts@[i].ip_addresses@[k].1@,
{
    lemma_shape_of_resolved(doc, earlier, l00, prior);
    lemma_same_blocks(doc, Some(prior), l0, l, earlier, l00, prior);
    lemma_unchanged_subnets_keep_ids(doc, prior, l0, l);
    lemma_hosts_keep_ids(doc, prior, l0, l);
    lemma_unchanged_subnet_addresses_kept(doc, prior, l0, l);
    let bl = blocks_of(l.subnets@);
    let bp = blocks_of(prior.subnets@);
    assert forall|j: int| 0 <= j < l.subnets@.len() implies (#[trigger] l.subnets@[j]).gateway@ == prior.subnets@[j].gateway@ by {
        assert(subnet_resolved(doc, Some(prior), l0, l.subnets@, bl, j));
        assert(subnet_resolved(doc, earlier, l00, prior.subnets@, bp, j));
        lemma_cidr_text_injective(bl[j], bp[j]);
    }
    assert forall|i: int| 0 <= i < l.hosts@.len() implies (#[trigger] l.hosts@[i]).ip_addresses@.len()
        == prior.hosts@[i].ip_addresses@.len() by {
        assert(host_resolved(doc, Some(prior), l.subnets@, bl, l0, l.hosts@.subrange(0, i), l.hosts@[i], i, mac_start(l0, l.hosts@.subrange(0, i))));
        assert(host_resolved(doc, earlier, prior.subnets@, bp, l00, prior.hosts@.subrange(0, i), prior.hosts@[i], i, mac_start(l00, prior.hosts@.subrange(0, i))));
    }
    assert forall|i: int, k: int|
        0 <= i < l.hosts@.len() && 0 <= k < l.hosts@[i].ip_addresses@.len() implies (#[trigger] l.hosts@[i].ip_addresses@[k]).0@
            == prior.hosts@[i].ip_addresses@[k].0@ && l.hosts@[i].ip_addresses@[k].1@
            == prior.hosts@[i].ip_addresses@[k].1@ by {
        let d = doc.hosts@[i];
        assert(host_resolved(doc, Some(prior), l.subnets@, bl, l0, l.hosts@.subrange(0, i), l.hosts@[i], i, mac_start(l0, l.hosts@.subrange(0, i))));
        assert(host_resolved(doc, earlier, prior.subnets@, bp, l00, prior.hosts@.subrange(0, i), prior.hosts@[i], i, mac_start(l00, prior.hosts@.subrange(0, i))));
        assert(ip_resolved(Some(prior), l.subnets@, bl, l0, l.hosts@.subrange(0, i), d, l.hosts@[i].ip_addresses@[k], k));
        assert(ip_resolved(earlier, prior.subnets@, bp, l00, prior.hosts@.subrange(0, i), d, prior.hosts@[i].ip_addresses@[k], k));
        let n = d.subnets@[k]@;
        assert(doc.subnet_names().contains(n));
        let j = choose|j: int| 0 <= j < doc.subnet_names().len() && doc.subnet_names()[j] == n;
        assert(subnet_resolved(doc, Some(prior), l0, l.subnets@, bl, j));
        assert(l.subnets@[j].name@ == l.hosts@[i].ip_addresses@[k].0@);
    }
}

/// Changing one subnet's explicit block between two runs gives that subnet
/// alone a new identifier (one the ledger never held) and the gateway of its
/// new block; every other subnet keeps its identifier and gateway, every host
/// keeps its identifier and hardware address, and keeps its address in every
/// other subnet. Left out: runs where an automatic block moves (the changed
/// block may now overlap it).
pub proof fn lemma_block_change_is_isolated(
    before: IncusCompose,
    earlier: Option<IncusLockfile>,
    l00: UsedValues,
    prior: IncusLockfile,
    doc: IncusCompose,
    l0: UsedValues,
    l: IncusLockfile,
    s: int,
)
    requires
        doc.well_formed(),
        doc.references_resolve(),
        resolved_from(before, earlier, l00, prior),
        prior.wf(),
        resolved_from(doc, Some(prior), l0, l),
        0 <= s < doc.subnets@.len(),
        doc.hosts@ == before.hosts@,
        doc.subnets@.len() == before.subnets@.len(),
        doc.subnet_names() == before.subnet_names(),
        forall|j: int| 0 <= j < doc.subnets@.len() && j != s ==> doc.subnets@[j] == before.subnets@[j],
        doc.explicit_block(s) is Some,
        before.explicit_block(s) is Some,
        doc.explicit_block(s) != before.explicit_block(s),
        forall|j: int|
            0 <= j < doc.subnets@.len() && #[trigger] doc.explicit_block(j) is None ==> blocks_of(l.subnets@)[j]
                == blocks_of(prior.subnets@)[j],
    ensures
        l.subnets@[s].id@ != prior.subnets@[s].id@,
        !holds_text(prior.metadata.used_values.subnet_ids@, l.subnets@[s].id@),
        l.subnets@[s].gateway@ == ipv4_text(gateway(doc.explicit_block(s)->0) as u32),
        forall|j: int|
            0 <= j < l.subnets@.len() && j != s ==> (#[trigger] l.subnets@[j]).id@ == prior.subnets@[j].id@
                && l.subnets@[j].gateway@ == prior.subnets@[j].gateway@,
        forall|i: int|
            0 <= i < l.hosts@.len() ==> (#[trigger] l.hosts@[i]).id@ == prior.hosts@[i].id@
                && l.hosts@[i].mac_address is Some && l.hosts@[i].mac_address->0@
                == prior.hosts@[i].mac_address->0@,
        forall|i: int, k: int|
            0 <= i < l.hosts@.len() && 0 <= k < l.hosts@[i].ip_addresses@.len() && (#[trigger] l.hosts@[i].ip_addresses@[k]).0@
                != l.subnets@[s].name@ ==> l.hosts@[i].ip_addresses@[k].1@
                == prior.hosts@[i].ip_addresses@[k].1@,
{
    lemma_shape_of_resolved(before, earlier, l00, prior);
    assert(same_shape(doc, prior));
    let bl = blocks_of(l.subnets@);
    let bp = blocks_of(prior.subnets@);
    assert forall|j: int| 0 <= j < l.subnets@.len() && j != s implies (#[trigger] l.subnets@[j]).cidr@
        == prior.subnets@[j].cidr@ && bl[j] == bp[j] by {
        assert(subnet_resolved(doc, Some(prior), l0, l.subnets@, bl, j));
        assert(subnet_resolved(before, earlier, l00, prior.subnets@, bp, j));
        assert(doc.explicit_block(j) == before.explicit_block(j));
    }
    lemma_unchanged_subnets_keep_ids(doc, prior, l0, l);
    lemma_hosts_keep_ids(doc, prior, l0, l);
    lemma_unchanged_subnet_addresses_kept(doc, prior, l0, l);
    assert forall|j: int| 0 <= j < l.subnets@.len() && j != s implies (#[trigger] l.subnets@[j]).gateway@
        == prior.subnets@[j].gateway@ by {
        assert(subnet_resolved(doc, Some(prior), l0, l.subnets@, bl, j));
        assert(subnet_resolved(before, earlier, l00, prior.subnets@, bp, j));
    }
    // the changed subnet
    assert(subnet_resolved(doc, Some(prior), l0, l.subnets@, bl, s));
    assert(subnet_resolved(before, earlier, l00, prior.subnets@, bp, s));
    if l.subnets@[s].cidr@ == prior.subnets@[s].cidr@ {
        lemma_cidr_text_injective(bl[s], bp[s]);
    }
    lemma_offered_subnet(doc, prior, s, l.subnets@[s].cidr@);
    assert(holds_text(prior.metadata.used_values.subnet_ids@, prior.subnets@[s].id@));
    assert forall|i: int, k: int|
        0 <= i < l.hosts@.len() && 0 <= k < l.hosts@[i].ip_addresses@.len() && (#[trigger] l.hosts@[i].ip_addresses@[k]).0@
            != l.subnets@[s].name@ implies l.hosts@[i].ip_addresses@[k].1@ == prior.hosts@[i].ip_addresses@[k].1@ by {
        let d = doc.hosts@[i];
        assert(host_resolved(doc, Some(prior), l.subnets@, bl, l0, l.hosts@.subrange(0, i), l.hosts@[i], i, mac_start(l0, l.hosts@.subrange(0, i))));
        assert(ip_resolved(Some(prior), l.subnets@, bl, l0, l.hosts@.subrange(0, i), d, l.hosts@[i].ip_addresses@[k], k));
        let n = d.subnets@[k]@;
        assert(doc.subnet_names().contains(n));
        let j = choose|j: int| 0 <= j < doc.subnet_names().len() && doc.subnet_names()[j] == n;
        assert(subnet_resolved(doc, Some(prior), l0, l.subnets@, bl, j));
        assert(l.subnets@[j].name@ == l.hosts@[i].ip_addresses@[k].0@);
    }
}

proof fn lemma_first_run_subnet_ids_upto(
    doc: IncusCompose,
    l1: UsedValues,
    s1: IncusLockfile,
    l2: UsedValues,
    s2: IncusLockfile,
    n: int,
)
    requires
        resolved_from(doc, None, l1, s1),
        resolved_from(doc, None, l2, s2),
        s1.wf(),
        s2.wf(),
        0 <= n <= doc.subnets@.len(),
    ensures
        forall|j: int| 0 <= j < n ==> (#[trigger] s1.subnets@[j]).id@ == s2.subnets@[j].id@,
    decreases n,
{
    if n > 0 {
        lemma_first_run_subnet_ids_upto(doc, l1, s1, l2, s2, n - 1);
        let j = n - 1;
        let a = s1.subnets@;
        let b = s2.subnets@;
        assert(subnet_resolved(doc, None, l1, a, blocks_of(a), j));
        assert(subnet_resolved(doc, None, l2, b, blocks_of(b), j));
        assert(offered_subnet_id(None, a[j].name@, a[j].cidr@) is None);
        assert(offered_subnet_id(None, b[j].name@, b[j].cidr@) is None);
        let k1 = choose|k: nat|
            j + 1 <= k && a[j].id@ == ordinal_text("subnet_"@, k) && !holds_text(l1.subnet_ids@, a[j].id@)
                && forall|k2: nat|
                j + 1 <= k2 < k ==> #[trigger] subnet_id_issued(l1, a, j, ordinal_text("subnet_"@, k2));
        let k2 = choose|k: nat|
            j + 1 <= k && b[j].id@ == ordinal_text("subnet_"@, k) && !holds_text(l2.subnet_ids@, b[j].id@)
                && forall|k2: nat|
                j + 1 <= k2 < k ==> #[trigger] subnet_id_issued(l2, b, j, ordinal_text("subnet_"@, k2));
        if k1 < k2 {
            assert(subnet_id_issued(l2, b, j, ordinal_text("subnet_"@, k1)));
            assert(!holds_text(l2.subnet_ids@, ordinal_text("subnet_"@, k1)));
            let i = choose|i: int| 0 <= i < j && (#[trigger] b[i]).id@ == ordinal_text("subnet_"@, k1);
            assert(a[i].id@ == b[i].id@);
            assert(a[i].id@ != a[j].id@);
        }
        if k2 < k1 {
            assert(subnet_id_issued(l1, a, j, ordinal_text("subnet_"@, k2)));
            assert(!holds_text(l1.subnet_ids@, ordinal_text("subnet_"@, k2)));
            let i = choose|i: int| 0 <= i < j && (#[trigger] a[i]).id@ == ordinal_text("subnet_"@, k2);
            assert(a[i].id@ == b[i].id@);
            assert(b[i].id@ != b[j].id@);
        }
    }
}

/// The hosts before `i` of two states agree on identifiers, hardware
/// addresses and address entries.
pub open spec fn hosts_agree(h1: Seq<ExpandedHost>, h2: Seq<ExpandedHost>, n: int) -> bool {
    forall|i: int|
        0 <= i < n ==> {
            &&& (#[trigger] h1[i]).id@ == h2[i].id@
            &&& h1[i].mac_address is Some
            &&& h2[i].mac_address is Some
            &&& h1[i].mac_address->0@ == h2[i].mac_address->0@
            &&& h1[i].ip_addresses@.len() == h2[i].ip_addresses@.len()
            &&& forall|k: int|
                0 <= k < h1[i].ip_addresses@.len() ==> (#[trigger] h1[i].ip_addresses@[k]).0@
                    == h2[i].ip_addresses@[k].0@ && h1[i].ip_addresses@[k].1@ == h2[i].ip_addresses@[k].1@
        }
}

proof fn lemma_taken_agree(h1: Seq<ExpandedHost>, h2: Seq<ExpandedHost>, n: int)
    requires
        0 <= n <= h1.len(),
        n <= h2.len(),
        hosts_agree(h1, h2, n),
    ensures
        forall|t: Seq<char>| id_taken(h1.subrange(0, n), t) == id_taken(h2.subrange(0, n), t),
        forall|t: Seq<char>| mac_taken(h1.subrange(0, n), t) == mac_taken(h2.subrange(0, n), t),
        forall|m: Seq<char>, t: Seq<char>| ip_taken(h1.subrange(0, n), m, t) == ip_taken(h2.subrange(0, n), m, t),
{
    let prior_a = h1.subrange(0, n);
    let prior_b = h2.subrange(0, n);
    assert forall|t: Seq<char>| id_taken(prior_a, t) == id_taken(prior_b, t) by {
        if id_taken(prior_a, t) {
            let j = choose|j: int| 0 <= j < prior_a.len() && (#[trigger] prior_a[j]).id@ == t;
            assert(prior_a[j] == h1[j] && prior_b[j] == h2[j]);
        }
        if id_taken(prior_b, t) {
            let j = choose|j: int| 0 <= j < prior_b.len() && (#[trigger] prior_b[j]).id@ == t;
            assert(prior_a[j] == h1[j] && prior_b[j] == h2[j]);
        }
    }
    assert forall|t: Seq<char>| mac_taken(prior_a, t) == mac_taken(prior_b, t) by {
        if mac_taken(prior_a, t) {
            let j = choose|j: int| 0 <= j < prior_a.len() && has_mac(#[trigger] prior_a[j], t);
            assert(prior_a[j] == h1[j] && prior_b[j] == h2[j]);
            assert(has_mac(prior_b[j], t));
        }
        if mac_taken(prior_b, t) {
            let j = choose|j: int| 0 <= j < prior_b.len() && has_mac(#[trigger] prior_b[j], t);
            assert(prior_a[j] == h1[j] && prior_b[j] == h2[j]);
            assert(has_mac(prior_a[j], t));
        }
    }
    assert forall|m: Seq<char>, t: Seq<char>| ip_taken(prior_a, m, t) == ip_taken(prior_b, m, t) by {
        if ip_taken(prior_a, m, t) {
            let (j, k) = choose|j: int, k: int|
                0 <= j < prior_a.len() && 0 <= k < prior_a[j].ip_addresses@.len() && (#[trigger] prior_a[j].ip_addresses@[k]).0@
                    == m && prior_a[j].ip_addresses@[k].1@ == t;
            assert(prior_a[j] == h1[j] && prior_b[j] == h2[j]);
            assert(h1[j].ip_addresses@[k].0@ == h2[j].ip_addresses@[k].0@);
        }
        if ip_taken(prior_b, m, t) {
            let (j, k) = choose|j: int, k: int|
                0 <= j < prior_b.len() && 0 <= k < prior_b[j].ip_addresses@.len() && (#[trigger] prior_b[j].ip_addresses@[k]).0@
                    == m && prior_b[j].ip_addresses@[k].1@ == t;
            assert(prior_a[j] == h1[j] && prior_b[j] == h2[j]);
            assert(h1[j].ip_addresses@[k].0@ == h2[j].ip_addresses@[k].0@);
        }
    }
}

proof fn lemma_holds_text_same_views(w1: Seq<String>, w2: Seq<String>, t: Seq<char>)
    requires
        str_views(w1) == str_views(w2),
    ensures
        holds_text(w1, t) == holds_text(w2, t),
{
    assert(w1.len() == str_views(w1).len() && w2.len() == str_views(w2).len());
    if holds_text(w1, t) {
        let k = choose|k: int| 0 <= k < w1.len() && (#[trigger] w1[k])@ == t;
        assert(str_views(w1)[k] == str_views(w2)[k]);
    }
    if holds_text(w2, t) {
        let k = choose|k: int| 0 <= k < w2.len() && (#[trigger] w2[k])@ == t;
        assert(str_views(w1)[k] == str_views(w2)[k]);
    }
}

proof fn lemma_macs_after_agree(v1: Seq<String>, v2: Seq<String>, h1: Seq<ExpandedHost>, h2: Seq<ExpandedHost>, n: int)
    requires
        str_views(v1) == str_views(v2),
        0 <= n <= h1.len(),
        n <= h2.len(),
        hosts_agree(h1, h2, n),
    ensures
        str_views(macs_after(v1, h1, n)) == str_views(macs_after(v2, h2, n)),
    decreases n,
{
    if n > 0 {
        assert(hosts_agree(h1, h2, n - 1));
        lemma_macs_after_agree(v1, v2, h1, h2, n - 1);
        let w1 = macs_after(v1, h1, n - 1);
        let w2 = macs_after(v2, h2, n - 1);
        let m1 = h1[n - 1].mac_address->0;
        let m2 = h2[n - 1].mac_address->0;
        lemma_holds_text_same_views(w1, w2, m1@);
        assert(str_views(w1.push(m1)) =~= str_views(w1).push(m1@));
        assert(str_views(w2.push(m2)) =~= str_views(w2).push(m2@));
    }
}

proof fn lemma_mac_start_agree(l1: UsedValues, l2: UsedValues, h1: Seq<ExpandedHost>, h2: Seq<ExpandedHost>, i: int)
    requires
        l1.mac_addresses@.len() == 0,
        l2.mac_addresses@.len() == 0,
        0 <= i <= h1.len(),
        i <= h2.len(),
        hosts_agree(h1, h2, i),
    ensures
        mac_start(l1, h1.subrange(0, i)) == mac_start(l2, h2.subrange(0, i)),
{
    let p1 = h1.subrange(0, i);
    let p2 = h2.subrange(0, i);
    assert(str_views(l1.mac_addresses@) =~= str_views(l2.mac_addresses@));
    assert(hosts_agree(p1, p2, i)) by {
        assert forall|x: int| 0 <= x < i implies p1[x] == h1[x] && p2[x] == h2[x] by {}
    }
    lemma_macs_after_agree(l1.mac_addresses@, l2.mac_addresses@, p1, p2, i);
    assert(str_views(macs_after(l1.mac_addresses@, p1, i)).len() == macs_after(l1.mac_addresses@, p1, i).len());
    assert(str_views(macs_after(l2.mac_addresses@, p2, i)).len() == macs_after(l2.mac_addresses@, p2, i).len());
}

#[verifier::rlimit(100)]
proof fn lemma_first_run_hosts_upto(
    doc: IncusCompose,
    l1: UsedValues,
    s1: IncusLockfile,
    l2: UsedValues,
    s2: IncusLockfile,
    n: int,
)
    requires
        doc.references_resolve(),
        resolved_from(doc, None, l1, s1),
        resolved_from(doc, None, l2, s2),
        0 <= n <= doc.hosts@.len(),
    ensures
        hosts_agree(s1.hosts@, s2.hosts@, n),
    decreases n,
{
    if n > 0 {
        lemma_first_run_hosts_upto(doc, l1, s1, l2, s2, n - 1);
        let i = n - 1;
        let h1 = s1.hosts@;
        let h2 = s2.hosts@;
        let prior_a = h1.subrange(0, i);
        let prior_b = h2.subrange(0, i);
        let b1 = blocks_of(s1.subnets@);
        let b2 = blocks_of(s2.subnets@);
        lemma_taken_agree(h1, h2, i);
        lemma_same_blocks_upto(doc, None, l1, s1, None, l2, s2, doc.subnets@.len() as int);
        assert(host_resolved(doc, None, s1.subnets@, b1, l1, prior_a, h1[i], i, mac_start(l1, prior_a)));
        assert(host_resolved(doc, None, s2.subnets@, b2, l2, prior_b, h2[i], i, mac_start(l2, prior_b)));
        let d = doc.hosts@[i];
        assert(offered_host(None, d.name@) is None);
        // identifiers
        let k1 = choose|k: nat|
            i + 1 <= k && h1[i].id@ == ordinal_text("host_"@, k) && !holds_text(l1.host_ids@, h1[i].id@)
                && forall|k2: nat| i + 1 <= k2 < k ==> #[trigger] host_id_issued(l1, prior_a, ordinal_text("host_"@, k2));
        let k2 = choose|k: nat|
            i + 1 <= k && h2[i].id@ == ordinal_text("host_"@, k) && !holds_text(l2.host_ids@, h2[i].id@)
                && forall|k2: nat| i + 1 <= k2 < k ==> #[trigger] host_id_issued(l2, prior_b, ordinal_text("host_"@, k2));
        if k1 < k2 {
            assert(host_id_issued(l2, prior_b, ordinal_text("host_"@, k1)));
        }
        if k2 < k1 {
            assert(host_id_issued(l1, prior_a, ordinal_text("host_"@, k2)));
        }
        // hardware addresses
        lemma_mac_start_agree(l1, l2, h1, h2, i);
        let st = mac_start(l1, prior_a);
        let m1 = choose|k: u64|
            st <= k && h1[i].mac_address->0@ == mac_text(k) && !holds_text(l1.mac_addresses@, h1[i].mac_address->0@)
                && forall|k2: u64| st <= k2 < k ==> #[trigger] mac_issued(l1, prior_a, mac_text(k2));
        let m2 = choose|k: u64|
            st <= k && h2[i].mac_address->0@ == mac_text(k) && !holds_text(l2.mac_addresses@, h2[i].mac_address->0@)
                && forall|k2: u64| st <= k2 < k ==> #[trigger] mac_issued(l2, prior_b, mac_text(k2));
        if m1 < m2 {
            assert(mac_issued(l2, prior_b, mac_text(m1)));
        }
        if m2 < m1 {
            assert(mac_issued(l1, prior_a, mac_text(m2)));
        }
        // addresses
        assert forall|k: int| 0 <= k < h1[i].ip_addresses@.len() implies (#[trigger] h1[i].ip_addresses@[k]).0@
            == h2[i].ip_addresses@[k].0@ && h1[i].ip_addresses@[k].1@ == h2[i].ip_addresses@[k].1@ by {
            let e1 = h1[i].ip_addresses@[k];
            let e2 = h2[i].ip_addresses@[k];
            assert(ip_resolved(None, s1.subnets@, b1, l1, prior_a, d, e1, k));
            assert(ip_resolved(None, s2.subnets@, b2, l2, prior_b, d, e2, k));
            let nm = d.subnets@[k]@;
            assert(doc.subnet_names().contains(nm));
            let j = choose|j: int| 0 <= j < doc.subnet_names().len() && doc.subnet_names()[j] == nm;
            assert(subnet_resolved(doc, None, l1, s1.subnets@, b1, j));
            assert(subnet_resolved(doc, None, l2, s2.subnets@, b2, j));
            assert(s1.subnets@[j].name@ == nm);
            assert(s2.subnets@[j].name@ == nm);
            assert(b1[j] == b2[j]);
            assert(offered_ip(None, d.name@, nm, s1.subnets@[j].cidr@) is None);
            assert(offered_ip(None, d.name@, nm, s2.subnets@[j].cidr@) is None);
            let fo = first_offset(d.is_router);
            let o1 = choose|off: u32|
                fo <= off < host_mask(b1[j].prefix) && e1.1@ == #[trigger] block_addr_text(b1[j], off)
                    && !holds_ip(l1.ip_addresses@, nm, e1.1@) && forall|o: u32|
                    fo <= o < off ==> #[trigger] ip_issued(l1, prior_a, nm, block_addr_text(b1[j], o));
            let o2 = choose|off: u32|
                fo <= off < host_mask(b2[j].prefix) && e2.1@ == #[trigger] block_addr_text(b2[j], off)
                    && !holds_ip(l2.ip_addresses@, nm, e2.1@) && forall|o: u32|
                    fo <= o < off ==> #[trigger] ip_issued(l2, prior_b, nm, block_addr_text(b2[j], o));
            if o1 < o2 {
                assert(ip_issued(l2, prior_b, nm, block_addr_text(b2[j], o1)));
            }
            if o2 < o1 {
                assert(ip_issued(l1, prior_a, nm, block_addr_text(b1[j], o2)));
            }
        }
        assert forall|x: int| 0 <= x < n implies {
            &&& (#[trigger] h1[x]).id@ == h2[x].id@
            &&& h1[x].mac_address is Some
            &&& h2[x].mac_address is Some
            &&& h1[x].mac_address->0@ == h2[x].mac_address->0@
            &&& h1[x].ip_addresses@.len() == h2[x].ip_addresses@.len()
            &&& forall|k: int|
                0 <= k < h1[x].ip_addresses@.len() ==> (#[trigger] h1[x].ip_addresses@[k]).0@
                    == h2[x].ip_addresses@[k].0@ && h1[x].ip_addresses@[k].1@ == h2[x].ip_addresses@[k].1@
        } by {}
    }
}

/// Determinism: two first runs on the same document give every subnet the
/// same block, identifier and gateway, every host the same identifier,
/// hardware address and addresses, and leave ledgers that record the same
/// values.
pub proof fn lemma_first_runs_agree(
    doc: IncusCompose,
    l1: UsedValues,
    s1: IncusLockfile,
    l2: UsedValues,
    s2: IncusLockfile,
)
    requires
        doc.references_resolve(),
        resolved_from(doc, None, l1, s1),
        resolved_from(doc, None, l2, s2),
        s1.wf(),
        s2.wf(),
    ensures
        s1.subnets@.len() == s2.subnets@.len(),
        forall|j: int|
            0 <= j < s1.subnets@.len() ==> (#[trigger] s1.subnets@[j]).name@ == s2.subnets@[j].name@
                && s1.subnets@[j].cidr@ == s2.subnets@[j].cidr@ && s1.subnets@[j].id@ == s2.subnets@[j].id@
                && s1.subnets@[j].gateway@ == s2.subnets@[j].gateway@,
        s1.hosts@.len() == s2.hosts@.len(),
        hosts_agree(s1.hosts@, s2.hosts@, s1.hosts@.len() as int),
        forall|t: Seq<char>|
            holds_text(s1.metadata.used_values.subnet_ids@, t) == #[trigger] holds_text(
                s2.metadata.used_values.subnet_ids@,
                t,
            ),
        forall|t: Seq<char>|
            holds_text(s1.metadata.used_values.host_ids@, t) == #[trigger] holds_text(
                s2.metadata.used_values.host_ids@,
                t,
            ),
        forall|t: Seq<char>|
            holds_text(s1.metadata.used_values.mac_addresses@, t) == #[trigger] holds_text(
                s2.metadata.used_values.mac_addresses@,
                t,
            ),
        forall|n: Seq<char>, a: Seq<char>|
            holds_ip(s1.metadata.used_values.ip_addresses@, n, a) == #[trigger] holds_ip(
                s2.metadata.used_values.ip_addresses@,
                n,
                a,
            ),
{
    lemma_same_blocks_upto(doc, None, l1, s1, None, l2, s2, doc.subnets@.len() as int);
    lemma_first_run_subnet_ids_upto(doc, l1, s1, l2, s2, doc.subnets@.len() as int);
    lemma_first_run_hosts_upto(doc, l1, s1, l2, s2, doc.hosts@.len() as int);
    assert forall|j: int| 0 <= j < s1.subnets@.len() implies (#[trigger] s1.subnets@[j]).name@ == s2.subnets@[j].name@
        && s1.subnets@[j].cidr@ == s2.subnets@[j].cidr@ && s1.subnets@[j].gateway@ == s2.subnets@[j].gateway@ by {
        assert(subnet_resolved(doc, None, l1, s1.subnets@, blocks_of(s1.subnets@), j));
        assert(subnet_resolved(doc, None, l2, s2.subnets@, blocks_of(s2.subnets@), j));
    }
    let h1 = s1.hosts@;
    let h2 = s2.hosts@;
    let nh = h1.len() as int;
    lemma_taken_agree(h1, h2, nh);
    assert(h1.subrange(0, nh) =~= h1);
    assert(h2.subrange(0, nh) =~= h2);
    let u1 = s1.metadata.used_values;
    let u2 = s2.metadata.used_values;
    assert forall|t: Seq<char>| holds_text(u1.subnet_ids@, t) == #[trigger] holds_text(u2.subnet_ids@, t) by {
        if holds_text(u1.subnet_ids@, t) {
            assert(subnet_id_issued(l1, s1.subnets@, s1.subnets@.len() as int, t));
            let i = choose|i: int| 0 <= i < s1.subnets@.len() && (#[trigger] s1.subnets@[i]).id@ == t;
            assert(s2.subnets@[i].id@ == t);
        }
        if holds_text(u2.subnet_ids@, t) {
            assert(subnet_id_issued(l2, s2.subnets@, s2.subnets@.len() as int, t));
            let i = choose|i: int| 0 <= i < s2.subnets@.len() && (#[trigger] s2.subnets@[i]).id@ == t;
            assert(s1.subnets@[i].id@ == t);
        }
    }
    assert forall|t: Seq<char>| holds_text(u1.host_ids@, t) == #[trigger] holds_text(u2.host_ids@, t) by {
        if holds_text(u1.host_ids@, t) {
            assert(host_id_issued(l1, h1, t));
            let i = choose|i: int| 0 <= i < h2.len() && (#[trigger] h2[i]).id@ == t;
        }
        if holds_text(u2.host_ids@, t) {
            assert(host_id_issued(l2, h2, t));
            let i = choose|i: int| 0 <= i < h1.len() && (#[trigger] h1[i]).id@ == t;
        }
    }
    assert forall|t: Seq<char>| holds_text(u1.mac_addresses@, t) == #[trigger] holds_text(u2.mac_addresses@, t) by {
        if holds_text(u1.mac_addresses@, t) {
            assert(mac_issued(l1, h1, t));
            let i = choose|i: int| 0 <= i < h2.len() && has_mac(#[trigger] h2[i], t);
        }
        if holds_text(u2.mac_addresses@, t) {
            assert(mac_issued(l2, h2, t));
            let i = choose|i: int| 0 <= i < h1.len() && has_mac(#[trigger] h1[i], t);
        }
    }
    assert forall|n: Seq<char>, a: Seq<char>| holds_ip(u1.ip_addresses@, n, a) == #[trigger] holds_ip(u2.ip_addresses@, n, a) by {
        if holds_ip(u1.ip_addresses@, n, a) {
            assert(ip_issued(l1, h1, n, a));
            let (i, k) = choose|i: int, k: int|
                0 <= i < h2.len() && 0 <= k < h2[i].ip_addresses@.len() && (#[trigger] h2[i].ip_addresses@[k]).0@ == n
                    && h2[i].ip_addresses@[k].1@ == a;
            assert(holds_ip(u2.ip_addresses@, h2[i].ip_addresses@[k].0@, h2[i].ip_addresses@[k].1@));
        }
        if holds_ip(u2.ip_addresses@, n, a) {
            assert(ip_issued(l2, h2, n, a));
            let (i, k) = choose|i: int, k: int|
                0 <= i < h1.len() && 0 <= k < h1[i].ip_addresses@.len() && (#[trigger] h1[i].ip_addresses@[k]).0@ == n
                    && h1[i].ip_addresses@[k].1@ == a;
            assert(holds_ip(u1.ip_addresses@, h1[i].ip_addresses@[k].0@, h1[i].ip_addresses@[k].1@));
        }
    }
}

/// The views of a list of (subnet, address) entries.
pub open spec fn entry_views(v: Seq<(String, String)>) -> Seq<(Seq<char>, Seq<char>)> {
    v.map_values(|e: (String, String)| (e.0@, e.1@))
}

proof fn lemma_push_new_agree(w1: Seq<String>, w2: Seq<String>, t1: String, t2: String)
    requires
        str_views(w1) == str_views(w2),
        t1@ == t2@,
    ensures
        str_views(push_new(w1, t1)) == str_views(push_new(w2, t2)),
{
    lemma_holds_text_same_views(w1, w2, t1@);
    assert(str_views(w1.push(t1)) =~= str_views(w1).push(t1@));
    assert(str_views(w2.push(t2)) =~= str_views(w2).push(t2@));
}

proof fn lemma_host_ids_after_agree(v1: Seq<String>, v2: Seq<String>, h1: Seq<ExpandedHost>, h2: Seq<ExpandedHost>, n: int)
    requires
        str_views(v1) == str_views(v2),
        0 <= n <= h1.len(),
        n <= h2.len(),
        hosts_agree(h1, h2, n),
    ensures
        str_views(host_ids_after(v1, h1, n)) == str_views(host_ids_after(v2, h2, n)),
    decreases n,
{
    if n > 0 {
        assert(hosts_agree(h1, h2, n - 1));
        lemma_host_ids_after_agree(v1, v2, h1, h2, n - 1);
        lemma_push_new_agree(host_ids_after(v1, h1, n - 1), host_ids_after(v2, h2, n - 1), h1[n - 1].id, h2[n - 1].id);
    }
}

proof fn lemma_subnet_ids_after_agree(v1: Seq<String>, v2: Seq<String>, s1: Seq<ExpandedSubnet>, s2: Seq<ExpandedSubnet>, n: int)
    requires
        str_views(v1) == str_views(v2),
        0 <= n <= s1.len(),
        n <= s2.len(),
        forall|j: int| 0 <= j < n ==> (#[trigger] s1[j]).id@ == s2[j].id@,
    ensures
        str_views(subnet_ids_after(v1, s1, n)) == str_views(subnet_ids_after(v2, s2, n)),
    decreases n,
{
    if n > 0 {
        lemma_subnet_ids_after_agree(v1, v2, s1, s2, n - 1);
        lemma_push_new_agree(subnet_ids_after(v1, s1, n - 1), subnet_ids_after(v2, s2, n - 1), s1[n - 1].id, s2[n - 1].id);
    }
}

proof fn lemma_holds_ip_same_views(w1: Seq<(String, String)>, w2: Seq<(String, String)>, a: Seq<char>, b: Seq<char>)
    requires
        entry_views(w1) == entry_views(w2),
    ensures
        holds_ip(w1, a, b) == holds_ip(w2, a, b),
{
    assert(w1.len() == entry_views(w1).len() && w2.len() == entry_views(w2).len());
    if holds_ip(w1, a, b) {
        let k = choose|k: int| 0 <= k < w1.len() && (#[trigger] w1[k]).0@ == a && w1[k].1@ == b;
        assert(entry_views(w1)[k] == entry_views(w2)[k]);
    }
    if holds_ip(w2, a, b) {
        let k = choose|k: int| 0 <= k < w2.len() && (#[trigger] w2[k]).0@ == a && w2[k].1@ == b;
        assert(entry_views(w1)[k] == entry_views(w2)[k]);
    }
}

proof fn lemma_entries_after_agree(
    w1: Seq<(String, String)>,
    w2: Seq<(String, String)>,
    e1: Seq<(String, String)>,
    e2: Seq<(String, String)>,
    n: int,
)
    requires
        entry_views(w1) == entry_views(w2),
        0 <= n <= e1.len(),
        n <= e2.len(),
        forall|k: int| 0 <= k < n ==> (#[trigger] e1[k]).0@ == e2[k].0@ && e1[k].1@ == e2[k].1@,
    ensures
        entry_views(entries_after(w1, e1, n)) == entry_views(entries_after(w2, e2, n)),
    decreases n,
{
    if n > 0 {
        lemma_entries_after_agree(w1, w2, e1, e2, n - 1);
        let a1 = entries_after(w1, e1, n - 1);
        let a2 = entries_after(w2, e2, n - 1);
        lemma_holds_ip_same_views(a1, a2, e1[n - 1].0@, e1[n - 1].1@);
        assert(entry_views(a1.push(e1[n - 1])) =~= entry_views(a1).push((e1[n - 1].0@, e1[n - 1].1@)));
        assert(entry_views(a2.push(e2[n - 1])) =~= entry_views(a2).push((e2[n - 1].0@, e2[n - 1].1@)));
    }
}

proof fn lemma_ips_after_agree(
    v1: Seq<(String, String)>,
    v2: Seq<(String, String)>,
    h1: Seq<ExpandedHost>,
    h2: Seq<ExpandedHost>,
    n: int,
)
    requires
        entry_views(v1) == entry_views(v2),
        0 <= n <= h1.len(),
        n <= h2.len(),
        hosts_agree(h1, h2, n),
    ensures
        entry_views(ips_after(v1, h1, n)) == entry_views(ips_after(v2, h2, n)),
    decreases n,
{
    if n > 0 {
        assert(hosts_agree(h1, h2, n - 1));
        lemma_ips_after_agree(v1, v2, h1, h2, n - 1);
        let x1 = h1[n - 1];
        let x2 = h2[n - 1];
        lemma_entries_after_agree(
            ips_after(v1, h1, n - 1),
            ips_after(v2, h2, n - 1),
            x1.ip_addresses@,
            x2.ip_addresses@,
            x1.ip_addresses@.len() as int,
        );
    }
}

/// Determinism of the ledger: two first runs on the same document leave
/// ledgers that list the same values in the same order.
pub proof fn lemma_first_run_ledgers_agree(
    doc: IncusCompose,
    l1: UsedValues,
    s1: IncusLockfile,
    l2: UsedValues,
    s2: IncusLockfile,
)
    requires
        doc.references_resolve(),
        resolved_from(doc, None, l1, s1),
        resolved_from(doc, None, l2, s2),
        s1.wf(),
        s2.wf(),
    ensures
        str_views(s1.metadata.used_values.subnet_ids@) == str_views(s2.metadata.used_values.subnet_ids@),
        str_views(s1.metadata.used_values.host_ids@) == str_views(s2.metadata.used_values.host_ids@),
        str_views(s1.metadata.used_values.mac_addresses@) == str_views(s2.metadata.used_values.mac_addresses@),
        entry_views(s1.metadata.used_values.ip_addresses@) == entry_views(s2.metadata.used_values.ip_addresses@),
{
    lemma_first_runs_agree(doc, l1, s1, l2, s2);
    let n = s1.hosts@.len() as int;
    assert(str_views(l1.host_ids@) =~= str_views(l2.host_ids@));
    assert(str_views(l1.subnet_ids@) =~= str_views(l2.subnet_ids@));
    assert(str_views(l1.mac_addresses@) =~= str_views(l2.mac_addresses@));
    assert(entry_views(l1.ip_addresses@) =~= entry_views(l2.ip_addresses@));
    lemma_host_ids_after_agree(l1.host_ids@, l2.host_ids@, s1.hosts@, s2.hosts@, n);
    lemma_macs_after_agree(l1.mac_addresses@, l2.mac_addresses@, s1.hosts@, s2.hosts@, n);
    lemma_ips_after_agree(l1.ip_addresses@, l2.ip_addresses@, s1.hosts@, s2.hosts@, n);
    lemma_subnet_ids_after_agree(
        l1.subnet_ids@,
        l2.subnet_ids@,
        s1.subnets@,
        s2.subnets@,
        s1.subnets@.len() as int,
    );
}

} // verus!
