//! Patterns as lists of items: the names of a pattern made of items
//! separated by commas are the names of its items, whatever the order in
//! which the items stand and however often each of them is given.

use vstd::prelude::*;
use crate::error::Failure;
use crate::order::lemma_ascending_unique;
use crate::pattern::{
    classify, classify_all, end_item, is_expansion_of, is_expansion_of_symbols,
    names_of_symbols, scan, scan_from, scanned_names, start_state, step, ScanState, Symbol,
};
use crate::render::joined;

verus! {

/// An item, as classified characters: a pattern that is not empty, does not
/// end in a comma, and closes the brackets it opens, so that its scan, where
/// it succeeds, ends outside brackets.
pub open spec fn is_symbol_item(item: Seq<Symbol>) -> bool {
    &&& item.len() > 0
    &&& item.last().c != ','
    &&& (scan(item) matches Ok(s) ==> s.depth == 0)
}

/// Every element of `items` is an item.
pub open spec fn all_symbol_items(items: Seq<Seq<Symbol>>) -> bool {
    forall|i: int| 0 <= i < items.len() ==> is_symbol_item(#[trigger] items[i])
}

/// An item of a pattern: a pattern that is not empty, does not end in a
/// comma, and closes the brackets it opens.
pub open spec fn is_item(item: Seq<char>) -> bool {
    is_symbol_item(classify_all(item))
}

/// Every element of `items` is an item.
pub open spec fn all_items(items: Seq<Seq<char>>) -> bool {
    forall|i: int| 0 <= i < items.len() ==> is_item(#[trigger] items[i])
}

/// The items written one after the other, with a comma between each two
/// neighbours.
pub open spec fn comma_joined(items: Seq<Seq<char>>) -> Seq<char> {
    joined(items, seq![','])
}

/// Each item with its characters classified.
pub open spec fn classify_items(items: Seq<Seq<char>>) -> Seq<Seq<Symbol>> {
    Seq::new(items.len(), |i: int| classify_all(items[i]))
}

/// The state `s` with the names `front` in front of those of the items that
/// have ended.
pub open spec fn with_front(front: Seq<Seq<char>>, s: ScanState) -> ScanState {
    ScanState { hosts: front + s.hosts, ..s }
}

/// An outcome of a scan with the names `front` in front, where it is a
/// state.
pub open spec fn outcome_with_front(front: Seq<Seq<char>>, r: Result<ScanState, Failure>)
    -> Result<ScanState, Failure> {
    match r {
        Ok(s) => Ok(with_front(front, s)),
        Err(e) => Err(e),
    }
}

/// A character does to a state with names in front what it does to the
/// state without them: the scan never looks at the names it has gathered.
proof fn lemma_step_with_front(front: Seq<Seq<char>>, s: ScanState, g: Symbol, last: bool)
    ensures
        step(with_front(front, s), g, last) == outcome_with_front(front, step(s, g, last)),
{
    let a = step(with_front(front, s), g, last);
    let b = outcome_with_front(front, step(s, g, last));
    match step(s, g, last) {
        Ok(t) => {
            assert(a is Ok);
            assert(a->Ok_0.hosts =~= b->Ok_0.hosts);
            assert(a->Ok_0.queue =~= b->Ok_0.queue);
        },
        Err(e) => {},
    }
}

/// The same for a run of characters.
proof fn lemma_scan_with_front(
    front: Seq<Seq<char>>,
    s: ScanState,
    symbols: Seq<Symbol>,
    closing: bool,
)
    ensures
        scan_from(with_front(front, s), symbols, closing) == outcome_with_front(
            front,
            scan_from(s, symbols, closing),
        ),
    decreases symbols.len(),
{
    if symbols.len() > 0 {
        let last = closing && symbols.len() == 1;
        lemma_step_with_front(front, s, symbols[0], last);
        match step(s, symbols[0], last) {
            Ok(t) => {
                lemma_scan_with_front(front, t, symbols.drop_first(), closing);
            },
            Err(e) => {},
        }
    }
}

/// The scan of two runs of characters, one after the other, is the scan of
/// the first, not as the end of the pattern, followed by the scan of the
/// second.
proof fn lemma_scan_split(s: ScanState, x: Seq<Symbol>, y: Seq<Symbol>, closing: bool)
    requires
        y.len() > 0,
    ensures
        scan_from(s, x + y, closing) == match scan_from(s, x, false) {
            Ok(t) => scan_from(t, y, closing),
            Err(e) => Err(e),
        },
    decreases x.len(),
{
    if x.len() == 0 {
        assert(x + y =~= y);
    } else {
        let whole = x + y;
        assert(whole[0] == x[0]);
        assert(whole.drop_first() =~= x.drop_first() + y);
        match step(s, x[0], false) {
            Ok(t) => {
                lemma_scan_split(t, x.drop_first(), y, closing);
            },
            Err(e) => {},
        }
    }
}

/// The scan of a run that is not empty is the scan of all but its last
/// character, followed by the step of the last.
proof fn lemma_scan_last(s: ScanState, symbols: Seq<Symbol>, closing: bool)
    requires
        symbols.len() > 0,
    ensures
        scan_from(s, symbols, closing) == match scan_from(s, symbols.drop_last(), false) {
            Ok(t) => step(t, symbols.last(), closing),
            Err(e) => Err(e),
        },
{
    let tail = seq![symbols.last()];
    assert(symbols =~= symbols.drop_last() + tail);
    lemma_scan_split(s, symbols.drop_last(), tail, closing);
    match scan_from(s, symbols.drop_last(), false) {
        Ok(t) => {
            assert(tail.drop_first() =~= Seq::<Symbol>::empty());
            assert(scan_from(t, tail, closing) == step(t, symbols.last(), closing)) by {
                match step(t, tail[0], closing) {
                    Ok(u) => {
                        assert(scan_from(u, tail.drop_first(), closing) == Ok::<
                            ScanState,
                            Failure,
                        >(u));
                    },
                    Err(e) => {},
                }
            }
        },
        Err(e) => {},
    }
}

/// A comma behind a run that is not empty and does not end in a comma does
/// what the end of the pattern does there.
proof fn lemma_comma_ends_item(s: ScanState, symbols: Seq<Symbol>, comma: Symbol, closing: bool)
    requires
        symbols.len() > 0,
        symbols.last().c != ',',
        comma.c == ',',
    ensures
        scan_from(s, symbols.push(comma), closing) == scan_from(s, symbols, true),
{
    let longer = symbols.push(comma);
    assert(longer.drop_last() =~= symbols);
    lemma_scan_last(s, longer, closing);
    lemma_scan_last(s, symbols, true);
    lemma_scan_last(s, symbols, false);
    match scan_from(s, symbols.drop_last(), false) {
        Ok(t) => {
            let g = symbols.last();
            match step(t, g, false) {
                Ok(u) => {
                    assert(step(u, comma, closing) == end_item(u));
                    assert(step(t, g, true) == end_item(u));
                },
                Err(e) => {},
            }
        },
        Err(e) => {},
    }
}

/// A scan that has read the last character of a pattern has no number, no
/// range and no queue left, and outside brackets no prefix.
proof fn lemma_scan_ends_clean(s: ScanState, symbols: Seq<Symbol>)
    requires
        symbols.len() > 0,
        scan_from(s, symbols, true) is Ok,
    ensures
        ({
            let t = scan_from(s, symbols, true)->Ok_0;
            &&& t.digits == Seq::<char>::empty()
            &&& t.range_start == None::<Seq<char>>
            &&& t.queue == Seq::<Seq<char>>::empty()
            &&& t.depth == 0 ==> t.prefix == Seq::<char>::empty()
        }),
{
    lemma_scan_last(s, symbols, true);
}

/// Items joined by commas make a pattern that is not empty and does not end
/// in a comma.
proof fn lemma_joined_items(items: Seq<Seq<Symbol>>, comma: Symbol)
    requires
        items.len() > 0,
        all_symbol_items(items),
    ensures
        joined(items, seq![comma]).len() > 0,
        joined(items, seq![comma]).last().c != ',',
{
    assert(is_symbol_item(items[items.len() - 1]));
    if items.len() == 1 {
        assert(is_symbol_item(items[0]));
    }
}

/// The scan of items joined by commas succeeds where the scan of each item
/// does. It then ends in the start state but for the names it has gathered,
/// which are those of the items.
proof fn lemma_scan_of_items(items: Seq<Seq<Symbol>>, comma: Symbol)
    requires
        items.len() > 0,
        all_symbol_items(items),
        comma.c == ',',
    ensures
        scan(joined(items, seq![comma])) is Ok <==> forall|i: int|
            0 <= i < items.len() ==> (#[trigger] scan(items[i])) is Ok,
        scan(joined(items, seq![comma])) matches Ok(t) ==> {
            &&& t == with_front(t.hosts, start_state())
            &&& forall|name: Seq<char>|
                t.hosts.contains(name) <==> exists|i: int|
                    0 <= i < items.len() && (#[trigger] scan(items[i]))->Ok_0.hosts.contains(
                        name,
                    )
        },
    decreases items.len(),
{
    let item = items.last();
    let whole = joined(items, seq![comma]);
    assert(is_symbol_item(item));
    if items.len() == 1 {
        assert(whole == item);
        assert(items[0] == item);
        if scan(item) is Ok {
            let t = scan(item)->Ok_0;
            lemma_scan_ends_clean(start_state(), item);
            assert(with_front(t.hosts, start_state()).hosts =~= t.hosts);
            assert forall|name: Seq<char>| t.hosts.contains(name) implies exists|i: int|
                0 <= i < items.len() && (#[trigger] scan(items[i]))->Ok_0.hosts.contains(
                    name,
                ) by {
                assert(scan(items[0])->Ok_0.hosts.contains(name));
            }
        }
    } else {
        let before = items.drop_last();
        let head = joined(before, seq![comma]);
        assert(all_symbol_items(before)) by {
            assert forall|i: int| 0 <= i < before.len() implies is_symbol_item(
                #[trigger] before[i],
            ) by {
                assert(before[i] == items[i]);
            }
        }
        lemma_scan_of_items(before, comma);
        lemma_joined_items(before, comma);
        assert(whole == head + seq![comma] + item);
        assert(head + seq![comma] =~= head.push(comma));
        lemma_scan_split(start_state(), head.push(comma), item, true);
        lemma_comma_ends_item(start_state(), head, comma, false);
        // The scan of `whole` is the scan of `head`, followed by that of `item`.
        match scan(head) {
            Ok(h) => {
                assert(h == with_front(h.hosts, start_state()));
                lemma_scan_with_front(h.hosts, start_state(), item, true);
                assert(scan(whole) == outcome_with_front(h.hosts, scan(item)));
                assert forall|i: int| 0 <= i < before.len() implies (#[trigger] scan(
                    items[i],
                )) is Ok by {
                    assert(before[i] == items[i]);
                    assert(scan(before[i]) is Ok);
                }
                match scan(item) {
                    Ok(u) => {
                        let t = scan(whole)->Ok_0;
                        lemma_scan_ends_clean(start_state(), item);
                        assert(t.hosts == h.hosts + u.hosts);
                        assert(with_front(t.hosts, start_state()).hosts =~= t.hosts);
                        assert(t == with_front(t.hosts, start_state()));
                        assert forall|i: int| 0 <= i < items.len() implies (#[trigger] scan(
                            items[i],
                        )) is Ok by {
                            if i < before.len() {
                            } else {
                                assert(items[i] == item);
                            }
                        }
                        assert forall|name: Seq<char>|
                            t.hosts.contains(name) <==> exists|i: int|
                                0 <= i < items.len() && (#[trigger] scan(
                                    items[i],
                                ))->Ok_0.hosts.contains(name) by {
                            vstd::seq_lib::lemma_seq_concat_contains_all_elements(
                                h.hosts,
                                u.hosts,
                                name,
                            );
                            if h.hosts.contains(name) {
                                let i = choose|i: int|
                                    0 <= i < before.len() && (#[trigger] scan(
                                        before[i],
                                    ))->Ok_0.hosts.contains(name);
                                assert(before[i] == items[i]);
                                assert(scan(items[i])->Ok_0.hosts.contains(name));
                            }
                            if u.hosts.contains(name) {
                                assert(scan(items[items.len() - 1])->Ok_0.hosts.contains(name));
                            }
                            if exists|i: int|
                                0 <= i < items.len() && (#[trigger] scan(
                                    items[i],
                                ))->Ok_0.hosts.contains(name) {
                                let i = choose|i: int|
                                    0 <= i < items.len() && (#[trigger] scan(
                                        items[i],
                                    ))->Ok_0.hosts.contains(name);
                                if i < before.len() {
                                    assert(before[i] == items[i]);
                                    assert(scan(before[i])->Ok_0.hosts.contains(name));
                                    assert(h.hosts.contains(name));
                                } else {
                                    assert(items[i] == item);
                                }
                            }
                        }
                    },
                    Err(e) => {
                        assert(scan(whole) is Err);
                        assert(!(scan(items[items.len() - 1]) is Ok));
                    },
                }
            },
            Err(e) => {
                assert(scan(whole) is Err);
                let i = choose|i: int|
                    0 <= i < before.len() && !((#[trigger] scan(before[i])) is Ok);
                assert(before[i] == items[i]);
                assert(!(scan(items[i]) is Ok));
            },
        }
    }
}

/// The names that the scan of a pattern gathers are those in its last
/// state: no name is left in the queue.
pub proof fn lemma_names_of_scan(symbols: Seq<Symbol>)
    ensures
        names_of_symbols(symbols) is Ok <==> scan(symbols) is Ok,
        scan(symbols) matches Ok(s) ==> names_of_symbols(symbols) == Ok::<
            Seq<Seq<char>>,
            Failure,
        >(s.hosts),
{
    if scan(symbols) is Ok {
        let s = scan(symbols)->Ok_0;
        if symbols.len() > 0 {
            lemma_scan_ends_clean(start_state(), symbols);
        }
        assert(s.hosts + s.queue =~= s.hosts);
    }
}

/// Where every element of `xs` occurs in `ys`, and the scan of each element
/// of `ys` succeeds, so does the scan of each element of `xs`.
proof fn lemma_each_of_both(xs: Seq<Seq<Symbol>>, ys: Seq<Seq<Symbol>>)
    requires
        forall|v: Seq<Symbol>| xs.contains(v) ==> ys.contains(v),
    ensures
        (forall|j: int| 0 <= j < ys.len() ==> (#[trigger] scan(ys[j])) is Ok) ==> (forall|i: int|
            0 <= i < xs.len() ==> (#[trigger] scan(xs[i])) is Ok),
{
    if forall|j: int| 0 <= j < ys.len() ==> (#[trigger] scan(ys[j])) is Ok {
        assert forall|i: int| 0 <= i < xs.len() implies (#[trigger] scan(xs[i])) is Ok by {
            assert(xs.contains(xs[i]));
            let j = choose|j: int| 0 <= j < ys.len() && ys[j] == xs[i];
            assert(scan(ys[j]) is Ok);
        }
    }
}

/// Where every element of `xs` occurs in `ys`, a name that the scan of an
/// element of `xs` gathers is gathered by the scan of an element of `ys`.
proof fn lemma_name_of_both(xs: Seq<Seq<Symbol>>, ys: Seq<Seq<Symbol>>, name: Seq<char>)
    requires
        forall|v: Seq<Symbol>| xs.contains(v) ==> ys.contains(v),
    ensures
        (exists|i: int|
            0 <= i < xs.len() && (#[trigger] scan(xs[i]))->Ok_0.hosts.contains(name)) ==> (
        exists|j: int| 0 <= j < ys.len() && (#[trigger] scan(ys[j]))->Ok_0.hosts.contains(name)),
{
    if exists|i: int| 0 <= i < xs.len() && (#[trigger] scan(xs[i]))->Ok_0.hosts.contains(name) {
        let i = choose|i: int|
            0 <= i < xs.len() && (#[trigger] scan(xs[i]))->Ok_0.hosts.contains(name);
        assert(xs.contains(xs[i]));
        let j = choose|j: int| 0 <= j < ys.len() && ys[j] == xs[i];
        assert(scan(ys[j])->Ok_0.hosts.contains(name));
    }
}

/// Two lists of the same items, joined by commas, stand for the same names.
///
/// Let every item of one list occur in the other, in whatever place and
/// however often, and let each list be joined by commas into a pattern.
/// Then both patterns are accepted or both are refused, and where they are
/// accepted their scans gather the same names.
pub proof fn lemma_same_items_same_names(
    xs: Seq<Seq<Symbol>>,
    ys: Seq<Seq<Symbol>>,
    comma: Symbol,
)
    requires
        all_symbol_items(xs),
        comma.c == ',',
        forall|v: Seq<Symbol>| xs.contains(v) <==> ys.contains(v),
    ensures
        names_of_symbols(joined(xs, seq![comma])) is Ok <==> names_of_symbols(
            joined(ys, seq![comma]),
        ) is Ok,
        names_of_symbols(joined(xs, seq![comma])) is Ok ==> names_of_symbols(
            joined(xs, seq![comma]),
        )->Ok_0.to_set() == names_of_symbols(joined(ys, seq![comma]))->Ok_0.to_set(),
{
    let p = joined(xs, seq![comma]);
    let q = joined(ys, seq![comma]);
    lemma_names_of_scan(p);
    lemma_names_of_scan(q);
    if xs.len() > 0 && ys.len() > 0 {
        assert(all_symbol_items(ys)) by {
            assert forall|j: int| 0 <= j < ys.len() implies is_symbol_item(#[trigger] ys[j]) by {
                assert(ys.contains(ys[j]));
                assert(xs.contains(ys[j]));
                let i = choose|i: int| 0 <= i < xs.len() && xs[i] == ys[j];
                assert(is_symbol_item(xs[i]));
            }
        }
        lemma_scan_of_items(xs, comma);
        lemma_scan_of_items(ys, comma);
        lemma_each_of_both(xs, ys);
        lemma_each_of_both(ys, xs);
        if scan(p) is Ok {
            let s = scan(p)->Ok_0;
            let t = scan(q)->Ok_0;
            assert forall|name: Seq<char>| s.hosts.contains(name) <==> t.hosts.contains(name) by {
                lemma_name_of_both(xs, ys, name);
                lemma_name_of_both(ys, xs, name);
            }
            assert(s.hosts.to_set() =~= t.hosts.to_set());
        }
    } else {
        if xs.len() > 0 {
            assert(xs.contains(xs[0]));
        }
        if ys.len() > 0 {
            assert(ys.contains(ys[0]));
        }
        assert(p == q);
    }
}

/// Classifying the characters of items joined by commas gives the
/// classified items, joined by the classified comma.
proof fn lemma_classify_joined(items: Seq<Seq<char>>)
    ensures
        classify_all(comma_joined(items)) == joined(classify_items(items), seq![classify(',')]),
    decreases items.len(),
{
    let left = classify_all(comma_joined(items));
    let right = joined(classify_items(items), seq![classify(',')]);
    if items.len() == 0 {
        assert(left =~= right);
    } else if items.len() == 1 {
        assert(classify_items(items)[0] == classify_all(items[0]));
    } else {
        let before = items.drop_last();
        lemma_classify_joined(before);
        assert(classify_items(items).drop_last() =~= classify_items(before));
        assert(classify_items(items).last() == classify_all(items.last()));
        let head = comma_joined(before);
        assert(comma_joined(items) == head + seq![','] + items.last());
        assert(left =~= classify_all(head) + seq![classify(',')] + classify_all(items.last()));
    }
}

/// Items may stand in any order.
///
/// Let two lists hold the same items, each as often as the other, and let
/// each be joined by commas into a pattern. Then both patterns are accepted
/// or both are refused. Where they are accepted, the scans of the two gather
/// the same names, and so the two have the same expansion.
pub proof fn lemma_items_in_any_order(xs: Seq<Seq<char>>, ys: Seq<Seq<char>>)
    requires
        all_items(xs),
        xs.to_multiset() == ys.to_multiset(),
    ensures
        scanned_names(comma_joined(xs)) is Ok <==> scanned_names(comma_joined(ys)) is Ok,
        scanned_names(comma_joined(xs)) is Ok ==> scanned_names(comma_joined(xs))->Ok_0.to_set()
            == scanned_names(comma_joined(ys))->Ok_0.to_set(),
        forall|a: Seq<Seq<char>>, b: Seq<Seq<char>>|
            is_expansion_of(a, comma_joined(xs)) && is_expansion_of(b, comma_joined(ys)) ==> a
                == b,
{
    broadcast use vstd::seq_lib::group_to_multiset_ensures;

    let sx = classify_items(xs);
    let sy = classify_items(ys);
    assert forall|v: Seq<char>| xs.contains(v) <==> ys.contains(v) by {
        assert(xs.contains(v) <==> xs.to_multiset().count(v) > 0);
        assert(ys.contains(v) <==> ys.to_multiset().count(v) > 0);
    }
    lemma_classified_items_occur(xs, ys);
    lemma_classified_items_occur(ys, xs);
    assert(all_symbol_items(sx)) by {
        assert forall|i: int| 0 <= i < sx.len() implies is_symbol_item(#[trigger] sx[i]) by {
            assert(is_item(xs[i]));
        }
    }
    lemma_classify_joined(xs);
    lemma_classify_joined(ys);
    lemma_same_items_same_names(sx, sy, classify(','));
    assert forall|a: Seq<Seq<char>>, b: Seq<Seq<char>>|
        is_expansion_of(a, comma_joined(xs)) && is_expansion_of(
            b,
            comma_joined(ys),
        ) implies a == b by {
        lemma_ascending_unique(a, b);
    }
}

/// Where every element of `xs` occurs in `ys`, every element of `xs` with
/// its characters classified occurs among those of `ys`.
proof fn lemma_classified_items_occur(xs: Seq<Seq<char>>, ys: Seq<Seq<char>>)
    requires
        forall|v: Seq<char>| xs.contains(v) ==> ys.contains(v),
    ensures
        forall|v: Seq<Symbol>| classify_items(xs).contains(v) ==> classify_items(ys).contains(v),
{
    let sx = classify_items(xs);
    let sy = classify_items(ys);
    assert forall|v: Seq<Symbol>| sx.contains(v) implies sy.contains(v) by {
        let i = choose|i: int| 0 <= i < sx.len() && sx[i] == v;
        assert(xs.contains(xs[i]));
        let j = choose|j: int| 0 <= j < ys.len() && ys[j] == xs[i];
        assert(sy[j] == v);
    }
}

} // verus!
