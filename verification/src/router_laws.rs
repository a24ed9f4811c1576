//! What comes back from the external autorouter, and what it is called with.

use vstd::prelude::*;

use crate::external_router::{
    all_brought_back, args_from, args_in, brought_back, got_copper, live_names, net_called,
    net_name, nets_with_copper, raised, route_args, wanted_nets, ExternalRouterSettings,
};
use crate::geom::Unit;
use crate::item::{Entry, Item, NetId};
use crate::text::{is_space, signed_mm_text};

verus! {

/// Entry `a` of a list of nets is the first with that number.
pub open spec fn is_first_with_number(nets: Seq<(u32, String)>, number: u32, a: int) -> bool {
    &&& 0 <= a < nets.len()
    &&& nets[a].0 == number
    &&& forall|k: int| 0 <= k < a ==> (#[trigger] nets[k]).0 != number
}

/// Entry `b` of a list of nets is the first with that name.
pub open spec fn is_first_with_name(nets: Seq<(u32, String)>, name: Seq<char>, b: int) -> bool {
    &&& 0 <= b < nets.len()
    &&& nets[b].1@ == name
    &&& forall|k: int| 0 <= k < b ==> (#[trigger] nets[k]).1@ != name
}

/// The same track or via, on a net of the live board.
pub open spec fn is_same_wire_on(item: Item, was: Item, net: NetId) -> bool {
    match was {
        Item::Track { shape, layer, class, .. } => item == (Item::Track {
            shape,
            net: Some(net),
            layer,
            class,
        }),
        Item::Via { shape, drill, .. } => item == (Item::Via { shape, drill, net: Some(net) }),
        _ => false,
    }
}

/// The net that a track or via is on; none for everything else.
pub open spec fn wire_net(item: Item) -> Option<NetId> {
    match item {
        Item::Track { net, .. } => net,
        Item::Via { net, .. } => net,
        _ => None,
    }
}

proof fn lemma_net_name(nets: Seq<(u32, String)>, number: u32)
    ensures
        match net_name(nets, number) {
            Some(name) => exists|a: int|
                #[trigger] is_first_with_number(nets, number, a) && nets[a].1@ == name,
            None => forall|k: int| 0 <= k < nets.len() ==> (#[trigger] nets[k]).0 != number,
        },
    decreases nets.len(),
{
    if nets.len() > 0 {
        let rest = nets.drop_first();
        if nets[0].0 == number {
            assert(is_first_with_number(nets, number, 0));
        } else {
            lemma_net_name(rest, number);
            match net_name(rest, number) {
                Some(name) => {
                    let a = choose|a: int|
                        #[trigger] is_first_with_number(rest, number, a) && rest[a].1@ == name;
                    assert forall|k: int| 0 <= k < a + 1 implies (#[trigger] nets[k]).0 != number by {
                        if k > 0 {
                            assert(rest[k - 1] == nets[k]);
                        }
                    }
                    assert(is_first_with_number(nets, number, a + 1));
                },
                None => {
                    assert forall|k: int| 0 <= k < nets.len() implies (#[trigger] nets[k]).0
                        != number by {
                        if k > 0 {
                            assert(rest[k - 1] == nets[k]);
                        }
                    }
                },
            }
        }
    }
}

proof fn lemma_net_called(nets: Seq<(u32, String)>, name: Seq<char>)
    ensures
        match net_called(nets, name) {
            Some(net) => exists|b: int|
                #[trigger] is_first_with_name(nets, name, b) && net == NetId(nets[b].0),
            None => forall|k: int| 0 <= k < nets.len() ==> (#[trigger] nets[k]).1@ != name,
        },
    decreases nets.len(),
{
    if nets.len() > 0 {
        let rest = nets.drop_first();
        if nets[0].1@ == name {
            assert(is_first_with_name(nets, name, 0));
        } else {
            lemma_net_called(rest, name);
            match net_called(rest, name) {
                Some(net) => {
                    let b = choose|b: int|
                        #[trigger] is_first_with_name(rest, name, b) && net == NetId(rest[b].0);
                    assert forall|k: int| 0 <= k < b + 1 implies (#[trigger] nets[k]).1@ != name by {
                        if k > 0 {
                            assert(rest[k - 1] == nets[k]);
                        }
                    }
                    assert(is_first_with_name(nets, name, b + 1));
                },
                None => {
                    assert forall|k: int| 0 <= k < nets.len() implies (#[trigger] nets[k]).1@
                        != name by {
                        if k > 0 {
                            assert(rest[k - 1] == nets[k]);
                        }
                    }
                },
            }
        }
    }
}

/// Nothing that was asked for is lost: every track and every via of the routed
/// board whose net has a name that was asked for, and that a live net has,
/// comes back with its geometry on that live net, in the order of the board.
pub proof fn law_nothing_asked_for_is_lost(
    entries: Seq<Entry>,
    imported_nets: Seq<(u32, String)>,
    requested: Seq<Seq<char>>,
    live_nets: Seq<(u32, String)>,
    i: int,
    a: int,
    b: int,
)
    requires
        0 <= i < entries.len(),
        wire_net(entries[i].item) is Some,
        is_first_with_number(imported_nets, (wire_net(entries[i].item)->0).0, a),
        requested.contains(imported_nets[a].1@),
        is_first_with_name(live_nets, imported_nets[a].1@, b),
    ensures
        ({
            let back = all_brought_back(entries, imported_nets, requested, live_nets);
            let k = all_brought_back(
                entries.take(i),
                imported_nets,
                requested,
                live_nets,
            ).len() as int;
            &&& k < back.len()
            &&& is_same_wire_on(back[k], entries[i].item, NetId(live_nets[b].0))
        }),
    decreases entries.len(),
{
    let init = entries.drop_last();
    let rest = all_brought_back(init, imported_nets, requested, live_nets);
    let back = all_brought_back(entries, imported_nets, requested, live_nets);
    if i < init.len() {
        assert(init[i] == entries[i]);
        law_nothing_asked_for_is_lost(init, imported_nets, requested, live_nets, i, a, b);
        assert(init.take(i) =~= entries.take(i));
        let k = all_brought_back(entries.take(i), imported_nets, requested, live_nets).len() as int;
        assert(back[k] == rest[k]);
    } else {
        assert(entries.take(i) =~= init);
        let item = entries[i].item;
        let number = (wire_net(item)->0).0;
        lemma_net_name(imported_nets, number);
        assert(net_name(imported_nets, number) is Some) by {
            assert(imported_nets[a].0 == number);
        }
        let a2 = choose|a2: int|
            #[trigger] is_first_with_number(imported_nets, number, a2) && imported_nets[a2].1@
                == net_name(imported_nets, number)->0;
        assert(a2 == a) by {
            if a2 < a {
                assert(imported_nets[a2].0 != number);
            }
            if a < a2 {
                assert(imported_nets[a].0 != number);
            }
        }
        let name = imported_nets[a].1@;
        lemma_net_called(live_nets, name);
        assert(net_called(live_nets, name) is Some) by {
            assert(live_nets[b].1@ == name);
        }
        let b2 = choose|b2: int|
            #[trigger] is_first_with_name(live_nets, name, b2) && net_called(live_nets, name)->0
                == NetId(live_nets[b2].0);
        assert(b2 == b) by {
            if b2 < b {
                assert(live_nets[b2].1@ != name);
            }
            if b < b2 {
                assert(live_nets[b].1@ != name);
            }
        }
        assert(brought_back(item, imported_nets, requested, live_nets) is Some);
    }
}

/// Nothing that was not asked for comes back: an item that is no track or via,
/// or whose net has no name, one that was not asked for, or one that no live
/// net has, adds nothing; any other adds one item.
pub proof fn law_every_item_that_comes_back_was_asked_for(
    entries: Seq<Entry>,
    last: Entry,
    imported_nets: Seq<(u32, String)>,
    requested: Seq<Seq<char>>,
    live_nets: Seq<(u32, String)>,
)
    ensures
        ({
            let before = all_brought_back(entries, imported_nets, requested, live_nets);
            let after = all_brought_back(entries.push(last), imported_nets, requested, live_nets);
            let wanted = wire_net(last.item) is Some && exists|a: int, b: int|
                #[trigger] is_first_with_number(imported_nets, (wire_net(last.item)->0).0, a)
                    && #[trigger] is_first_with_name(live_nets, imported_nets[a].1@, b)
                    && requested.contains(imported_nets[a].1@);
            &&& after.len() == before.len() + if wanted {
                1int
            } else {
                0
            }
            &&& after.take(before.len() as int) == before
            &&& all_brought_back(Seq::empty(), imported_nets, requested, live_nets).len() == 0
        }),
{
    let all = entries.push(last);
    let before = all_brought_back(entries, imported_nets, requested, live_nets);
    let after = all_brought_back(all, imported_nets, requested, live_nets);
    assert(all.drop_last() =~= entries);
    assert(after.take(before.len() as int) =~= before);
    let back = brought_back(last.item, imported_nets, requested, live_nets);
    if back is Some {
        let number = (wire_net(last.item)->0).0;
        lemma_net_name(imported_nets, number);
        let name = net_name(imported_nets, number)->0;
        let a = choose|a: int|
            #[trigger] is_first_with_number(imported_nets, number, a) && imported_nets[a].1@ == name;
        lemma_net_called(live_nets, name);
        let b = choose|b: int|
            #[trigger] is_first_with_name(live_nets, name, b) && net_called(live_nets, name)->0
                == NetId(live_nets[b].0);
        assert(is_first_with_name(live_nets, imported_nets[a].1@, b));
    }
    let wanted = wire_net(last.item) is Some && exists|a: int, b: int|
        #[trigger] is_first_with_number(imported_nets, (wire_net(last.item)->0).0, a)
            && #[trigger] is_first_with_name(live_nets, imported_nets[a].1@, b)
            && requested.contains(imported_nets[a].1@);
    if wanted {
        let (a, b) = choose|a: int, b: int|
            #[trigger] is_first_with_number(imported_nets, (wire_net(last.item)->0).0, a)
                && #[trigger] is_first_with_name(live_nets, imported_nets[a].1@, b)
                && requested.contains(imported_nets[a].1@);
        assert(all[entries.len() as int] == last);
        law_nothing_asked_for_is_lost(
            all,
            imported_nets,
            requested,
            live_nets,
            entries.len() as int,
            a,
            b,
        );
        assert(all.take(entries.len() as int) =~= entries);
    }
}

/// A net is reported as routed if it was asked for and some item that came back
/// is on it; where no net is named, every live net is asked for.
pub proof fn law_which_nets_are_reported_as_routed(
    names: Seq<Seq<char>>,
    live_nets: Seq<(u32, String)>,
    items: Seq<Item>,
    name: Seq<char>,
)
    ensures
        nets_with_copper(names, live_nets, items).contains(name) <==> names.contains(name) && exists|
            b: int,
            i: int,
        |
            #[trigger] is_first_with_name(live_nets, name, b) && 0 <= i < items.len()
                && crate::item::item_net(#[trigger] items[i]) == Some(NetId(live_nets[b].0)),
        wanted_nets(names, live_nets) == if names.len() > 0 {
            names
        } else {
            Seq::new(live_nets.len(), |i: int| live_nets[i].1@)
        },
    decreases names.len(),
{
    assert(live_names(live_nets) =~= Seq::new(live_nets.len(), |i: int| live_nets[i].1@));
    if names.len() > 0 {
        let init = names.drop_last();
        law_which_nets_are_reported_as_routed(init, live_nets, items, name);
        let rest = nets_with_copper(init, live_nets, items);
        let all = nets_with_copper(names, live_nets, items);
        let last = names.last();
        lemma_net_called(live_nets, last);
        if init.contains(name) {
            let k = choose|k: int| 0 <= k < init.len() && init[k] == name;
            assert(names[k] == name);
        }
        if rest.contains(name) {
            let k = choose|k: int| 0 <= k < rest.len() && rest[k] == name;
            assert(all[k] == name);
        }
        assert(names[names.len() - 1] == last);
        if got_copper(items, net_called(live_nets, last)) {
            assert(all == rest.push(last));
            assert(all[rest.len() as int] == last);
            let b = choose|b: int|
                #[trigger] is_first_with_name(live_nets, last, b) && net_called(live_nets, last)->0
                    == NetId(live_nets[b].0);
            let i = choose|i: int|
                0 <= i < items.len() && crate::item::item_net(#[trigger] items[i]) == net_called(
                    live_nets,
                    last,
                );
            if last == name {
                assert(is_first_with_name(live_nets, name, b));
                assert(crate::item::item_net(items[i]) == Some(NetId(live_nets[b].0)));
            }
            if all.contains(name) && !rest.contains(name) {
                let k = choose|k: int| 0 <= k < all.len() && all[k] == name;
                if k < rest.len() {
                    assert(rest[k] == name);
                }
            }
        } else if last == name && exists|b: int, i: int|
            #[trigger] is_first_with_name(live_nets, name, b) && 0 <= i < items.len()
                && crate::item::item_net(#[trigger] items[i]) == Some(NetId(live_nets[b].0)) {
            let (b, i) = choose|b: int, i: int|
                #[trigger] is_first_with_name(live_nets, name, b) && 0 <= i < items.len()
                    && crate::item::item_net(#[trigger] items[i]) == Some(NetId(live_nets[b].0));
            assert(live_nets[b].1@ == name);
            let b2 = choose|b2: int|
                #[trigger] is_first_with_name(live_nets, last, b2) && net_called(
                    live_nets,
                    last,
                )->0 == NetId(live_nets[b2].0);
            if b2 < b {
                assert(live_nets[b2].1@ != name);
            }
            if b < b2 {
                assert(live_nets[b].1@ != name);
            }
            assert(got_copper(items, net_called(live_nets, last)));
        }
        if names.contains(name) && !init.contains(name) {
            let k = choose|k: int| 0 <= k < names.len() && names[k] == name;
            if k < init.len() {
                assert(init[k] == name);
            }
        }
    }
}

/// The router is called with the nets to route, in order, behind `--nets`, or
/// without that flag where none is named; then the sizes, each behind its flag
/// and in millimetres; then what the settings add.
pub proof fn law_the_router_is_told_everything(
    net_names: Seq<Seq<char>>,
    settings: ExternalRouterSettings,
)
    ensures
        ({
            let args = route_args(net_names, settings);
            let n = if net_names.len() == 0 {
                0int
            } else {
                net_names.len() as int + 1
            };
            &&& args.len() == n + 6 + args_in(settings.extra_args@).len()
            &&& net_names.len() > 0 ==> args[0] == "--nets"@ && args.subrange(1, n) == net_names
            &&& args[n] == "--track-width"@
            &&& args[n + 1] == signed_mm_text(settings.track_width as int)
            &&& args[n + 2] == "--via-size"@
            &&& args[n + 3] == signed_mm_text(settings.via_diameter as int)
            &&& args[n + 4] == "--via-drill"@
            &&& args[n + 5] == signed_mm_text(settings.via_drill as int)
            &&& args.skip(n + 6) == args_in(settings.extra_args@)
        }),
{
    let args = route_args(net_names, settings);
    let extra = args_in(settings.extra_args@);
    let n = if net_names.len() == 0 {
        0int
    } else {
        net_names.len() as int + 1
    };
    assert(args.skip(n + 6) =~= extra);
    if net_names.len() > 0 {
        assert(args.subrange(1, n) =~= net_names);
    }
}

/// Arguments are split at white space: a word in front of a text adds that
/// word, and white space in front of it adds nothing.
pub proof fn law_arguments_are_split_at_white_space(word: Seq<char>, space: char, rest: Seq<char>)
    requires
        word.len() > 0,
        is_space(space),
        forall|i: int|
            0 <= i < word.len() ==> !is_space(#[trigger] word[i]) && word[i] != '"' && word[i]
                != '\'',
    ensures
        args_in(word + seq![space] + rest) == seq![word] + args_in(rest),
        args_in(seq![space] + rest) == args_in(rest),
        args_in(word) == seq![word],
        args_in(Seq::empty()) == Seq::<Seq<char>>::empty(),
{
    assert(space != '"' && space != '\'');
    lemma_word(word, Seq::empty(), seq![space] + rest);
    assert(word + (seq![space] + rest) =~= word + seq![space] + rest);
    assert((seq![space] + rest).drop_first() =~= rest);
    assert(Seq::<char>::empty() + word =~= word);
    lemma_word(word, Seq::empty(), Seq::empty());
    assert(word + Seq::<char>::empty() =~= word);
}

proof fn lemma_word(word: Seq<char>, current: Seq<char>, rest: Seq<char>)
    requires
        forall|i: int|
            0 <= i < word.len() ==> !is_space(#[trigger] word[i]) && word[i] != '"' && word[i]
                != '\'',
    ensures
        word.len() > 0 ==> args_from(word + rest, current, false, None) == args_from(
            rest,
            current + word,
            true,
            None,
        ),
        args_from(word + rest, current, true, None) == args_from(rest, current + word, true, None),
    decreases word.len(),
{
    if word.len() > 0 {
        let tail = word.drop_first();
        assert((word + rest).drop_first() =~= tail + rest);
        assert((word + rest)[0] == word[0]);
        assert forall|i: int| 0 <= i < tail.len() implies !is_space(#[trigger] tail[i]) && tail[i]
            != '"' && tail[i] != '\'' by {
            assert(tail[i] == word[i + 1]);
        }
        lemma_word(tail, current.push(word[0]), rest);
        assert(current.push(word[0]) + tail =~= current + word);
    } else {
        assert(word + rest =~= rest);
        assert(current + word =~= current);
    }
}

/// Text between quotes of either kind belongs to the argument it stands in,
/// blanks, the other kind of quote and all; quotes round nothing are an empty
/// argument. A quote that is not closed reaches to the end.
pub proof fn law_quotes_keep_text_together(
    word: Seq<char>,
    quote: char,
    text: Seq<char>,
    space: char,
    rest: Seq<char>,
)
    requires
        quote == '"' || quote == '\'',
        is_space(space),
        !text.contains(quote),
        forall|i: int|
            0 <= i < word.len() ==> !is_space(#[trigger] word[i]) && word[i] != '"' && word[i]
                != '\'',
    ensures
        args_in(word + (seq![quote] + (text + (seq![quote] + (seq![space] + rest))))) == seq![
            word + text,
        ] + args_in(rest),
        args_in(word + (seq![quote] + text)) == seq![word + text],
{
    assert(space != '"' && space != '\'');
    let after = seq![space] + rest;
    let closed = seq![quote] + after;
    let opened = seq![quote] + (text + closed);
    assert(after.drop_first() =~= rest);
    assert(closed.drop_first() =~= after);
    assert(opened.drop_first() =~= text + closed);
    let none = Seq::<char>::empty();
    assert(none + word =~= word);
    assert(word + opened =~= opened || word.len() > 0);
    lemma_word(word, none, opened);
    lemma_quoted(text, word, quote, closed);
    assert(args_from(closed, word + text, true, Some(quote)) == args_from(
        after,
        word + text,
        true,
        None,
    ));
    assert(args_from(after, word + text, true, None) == seq![word + text] + args_in(rest));
    assert(args_from(opened, word, word.len() > 0, None) == args_from(
        text + closed,
        word,
        true,
        Some(quote),
    ));
    let open_end = seq![quote] + text;
    assert(open_end.drop_first() =~= text);
    assert(word + open_end =~= open_end || word.len() > 0);
    lemma_word(word, none, open_end);
    lemma_quoted(text, word, quote, none);
    assert(text + none =~= text);
}

proof fn lemma_quoted(text: Seq<char>, current: Seq<char>, quote: char, rest: Seq<char>)
    requires
        !text.contains(quote),
    ensures
        args_from(text + rest, current, true, Some(quote)) == args_from(
            rest,
            current + text,
            true,
            Some(quote),
        ),
    decreases text.len(),
{
    if text.len() > 0 {
        let tail = text.drop_first();
        assert(text.contains(text[0]));
        assert((text + rest).drop_first() =~= tail + rest);
        assert((text + rest)[0] == text[0]);
        assert(!tail.contains(quote)) by {
            if tail.contains(quote) {
                let k = choose|k: int| 0 <= k < tail.len() && tail[k] == quote;
                assert(text[k + 1] == quote);
            }
        }
        lemma_quoted(tail, current.push(text[0]), quote, rest);
        assert(current.push(text[0]) + tail =~= current + text);
    } else {
        assert(text + rest =~= rest);
        assert(current + text =~= current);
    }
}

/// A size below the minimum is raised to it, and any other is kept.
pub proof fn law_sizes_are_raised_to_the_minimum(value: Unit, floor: Unit)
    ensures
        raised(value, floor) >= floor,
        raised(value, floor) >= value,
        raised(value, floor) == value || raised(value, floor) == floor,
{
}

} // verus!
