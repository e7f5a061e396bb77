//! The tensors of a file taken together.

use crate::error::{ErrorView, GgufError};
use crate::model::{ModelTensorMetadata, TensorView};
use crate::order;
use crate::order::Named;
use crate::range;
use crate::range::{ByteRange, RangeView};
use crate::sort;
use crate::tensor;
use crate::tensor::{InfoView, TensorInfo};
use vstd::prelude::*;

verus! {

/// The contents of a list of declarations.
pub open spec fn info_views(infos: Seq<TensorInfo>) -> Seq<InfoView> {
    infos.map_values(|info: TensorInfo| info@)
}

/// The contents of a list of tensors.
pub open spec fn tensor_views(tensors: Seq<ModelTensorMetadata>) -> Seq<TensorView> {
    tensors.map_values(|tensor: ModelTensorMetadata| tensor@)
}

/// One of `infos` has the name `name`.
pub open spec fn declares(infos: Seq<InfoView>, name: Seq<char>) -> bool {
    exists|i: int| 0 <= i < infos.len() && (#[trigger] infos[i]).name == name
}

/// The tensors that `infos` declare, in the same order, or the error of the
/// first one that is wrong.
pub open spec fn tensors_of(
    infos: Seq<InfoView>,
    file: Seq<u8>,
    alignment: int,
    data_start: int,
) -> Result<Seq<TensorView>, ErrorView>
    decreases infos.len(),
{
    if infos.len() == 0 {
        Ok(Seq::empty())
    } else {
        let earlier = infos.drop_last();
        let info = infos.last();
        match tensors_of(earlier, file, alignment, data_start) {
            Ok(tensors) => if declares(earlier, info.name) {
                Err(ErrorView::DuplicateTensorName { name: info.name })
            } else {
                match tensor::tensor_of(info, file, alignment, data_start) {
                    Ok(tensor) => Ok(tensors.push(tensor)),
                    Err(e) => Err(e),
                }
            },
            Err(e) => Err(e),
        }
    }
}

/// The tensors that `infos` declare, which must not overlap.
pub open spec fn inventory_of(
    infos: Seq<InfoView>,
    file: Seq<u8>,
    alignment: int,
    data_start: int,
) -> Result<Seq<TensorView>, ErrorView> {
    match tensors_of(infos, file, alignment, data_start) {
        Ok(tensors) => match range::overlap(range::ranges_of(tensors, data_start)) {
            Some((first, second)) => Err(ErrorView::OverlappingRanges { first, second }),
            None => Ok(tensors),
        },
        Err(e) => Err(e),
    }
}

/// `tensors` are those of `declared`, in the order of their names, each of
/// which occurs once.
pub open spec fn arranged(tensors: Seq<ModelTensorMetadata>, declared: Seq<TensorView>) -> bool {
    &&& order::names_increase(tensors)
    &&& tensor_views(tensors).to_multiset() == declared.to_multiset()
}

/// An error in the first `k` declarations is the error of all of them.
proof fn lemma_first_error(
    infos: Seq<InfoView>,
    k: int,
    file: Seq<u8>,
    alignment: int,
    data_start: int,
)
    requires
        0 <= k <= infos.len(),
        tensors_of(infos.take(k), file, alignment, data_start) is Err,
    ensures
        tensors_of(infos, file, alignment, data_start) == tensors_of(
            infos.take(k),
            file,
            alignment,
            data_start,
        ),
    decreases infos.len(),
{
    if k == infos.len() {
        assert(infos.take(k) == infos);
    } else {
        assert(infos.drop_last().take(k) == infos.take(k));
        lemma_first_error(infos.drop_last(), k, file, alignment, data_start);
    }
}

/// Each declaration gives the tensor in its place, and no two of them have the
/// same name.
pub proof fn lemma_tensors_of(infos: Seq<InfoView>, file: Seq<u8>, alignment: int, data_start: int)
    requires
        tensors_of(infos, file, alignment, data_start) is Ok,
    ensures
        tensors_of(infos, file, alignment, data_start)->Ok_0.len() == infos.len(),
        forall|i: int|
            0 <= i < infos.len() ==> tensor::tensor_of(
                #[trigger] infos[i],
                file,
                alignment,
                data_start,
            ) == Ok::<TensorView, ErrorView>(
                tensors_of(infos, file, alignment, data_start)->Ok_0[i],
            ),
        forall|i: int, j: int|
            0 <= i < j < infos.len() ==> (#[trigger] infos[i]).name != (#[trigger] infos[j]).name,
    decreases infos.len(),
{
    if infos.len() > 0 {
        let earlier = infos.drop_last();
        lemma_tensors_of(earlier, file, alignment, data_start);
        assert forall|i: int, j: int| 0 <= i < j < infos.len() implies (#[trigger] infos[i]).name
            != (#[trigger] infos[j]).name by {
            assert(earlier[i] == infos[i]);
            if j < earlier.len() {
                assert(earlier[j] == infos[j]);
            }
        }
        assert forall|i: int| 0 <= i < infos.len() implies tensor::tensor_of(
            #[trigger] infos[i],
            file,
            alignment,
            data_start,
        ) == Ok::<TensorView, ErrorView>(
            tensors_of(infos, file, alignment, data_start)->Ok_0[i],
        ) by {
            if i < earlier.len() {
                assert(earlier[i] == infos[i]);
            }
        }
    }
}

/// Tells of each of `infos` whether an earlier one has its name. `places` are
/// their places in the order of names.
fn repeated_names(infos: &Vec<TensorInfo>, places: &Vec<usize>) -> (repeated: Vec<bool>)
    requires
        sort::in_order(infos@, places@),
        sort::covers(places@, 0, infos@.len() as int),
    ensures
        repeated@.len() == infos@.len(),
        forall|p: int|
            0 <= p < infos@.len() ==> #[trigger] repeated@[p] == declares(
                info_views(infos@).take(p),
                infos@[p].name@,
            ),
{
    let mut repeated: Vec<bool> = Vec::with_capacity(infos.len());
    let count: usize = infos.len();
    while repeated.len() < count
        invariant
            count == infos@.len(),
            repeated@.len() <= count,
            forall|p: int| 0 <= p < repeated@.len() ==> !#[trigger] repeated@[p],
        decreases count - repeated@.len(),
    {
        repeated.push(false);
    }
    proof {
        sort::lemma_in_order_differ(infos@, places@);
    }
    let mut k: usize = 1;
    while k < places.len()
        invariant
            1 <= k,
            sort::in_order(infos@, places@),
            places@.no_duplicates(),
            count == infos@.len(),
            places@.len() == count,
            k <= count || count == 0,
            repeated@.len() == count,
            forall|l: int|
                0 <= l < k && l < count ==> repeated@[#[trigger] places@[l] as int] == (l > 0
                    && infos@[places@[l - 1] as int].name@ == infos@[places@[l] as int].name@),
            forall|l: int| k <= l < count ==> !repeated@[#[trigger] places@[l] as int],
        decreases places@.len() - k,
    {
        let (earlier, place): (usize, usize) = (places[k - 1], places[k]);
        let same: bool = infos[earlier].name == infos[place].name;
        repeated.set(place, same);
        k = k + 1;
    }
    proof {
        assert forall|p: int| 0 <= p < infos@.len() implies #[trigger] repeated@[p] == declares(
            info_views(infos@).take(p),
            infos@[p].name@,
        ) by {
            lemma_repeated(infos@, places@, p);
            assert(places@.contains(p as usize));
            let k = choose|k: int| 0 <= k < places@.len() && places@[k] == p as usize;
            assert(places@[k] == p);
        }
    }
    repeated
}

/// An earlier declaration has the name of declaration `p` just where the one
/// next to it in the order of names has.
proof fn lemma_repeated(infos: Seq<TensorInfo>, places: Seq<usize>, p: int)
    requires
        infos.len() <= usize::MAX,
        sort::in_order(infos, places),
        sort::covers(places, 0, infos.len() as int),
        0 <= p < infos.len(),
    ensures
        forall|k: int|
            0 <= k < places.len() && #[trigger] places[k] == p ==> (declares(
                info_views(infos).take(p),
                infos[p].name@,
            ) <==> k > 0 && infos[places[k - 1] as int].name@ == infos[p].name@),
{
    let earlier = info_views(infos).take(p);
    let name = infos[p].name@;
    order::lemma_name_lt_irreflexive(name);
    assert forall|k: int| 0 <= k < places.len() && #[trigger] places[k] == p implies (declares(
        earlier,
        name,
    ) <==> k > 0 && infos[places[k - 1] as int].name@ == name) by {
        if k > 0 && infos[places[k - 1] as int].name@ == name {
            let q = places[k - 1] as int;
            assert(sort::ahead(infos, q, p));
            assert(earlier[q].name == name);
        }
        if declares(earlier, name) {
            let q = choose|q: int| 0 <= q < earlier.len() && (#[trigger] earlier[q]).name == name;
            assert(infos[q].name@ == name);
            assert(places.contains(q as usize));
            let l = choose|l: int| 0 <= l < places.len() && places[l] == q as usize;
            assert(places[l] == q);
            if k < l {
                assert(sort::ahead(infos, p, q));
            }
            assert(l < k);
            if l < k - 1 {
                let r = places[k - 1] as int;
                assert(sort::ahead(infos, q, r));
                assert(sort::ahead(infos, r, p));
                if order::name_lt(name, infos[r].name@) && order::name_lt(infos[r].name@, name) {
                    order::lemma_name_lt_transitive(name, infos[r].name@, name);
                }
            }
        }
    }
}

/// Tensors taken in the order of the names of their declarations are arranged.
proof fn lemma_arranged(
    infos: Seq<TensorInfo>,
    places: Seq<usize>,
    tensors: Seq<ModelTensorMetadata>,
    result: Seq<ModelTensorMetadata>,
)
    requires
        infos.len() <= usize::MAX,
        sort::in_order(infos, places),
        sort::covers(places, 0, infos.len() as int),
        tensors.len() == infos.len(),
        forall|i: int| 0 <= i < infos.len() ==> (#[trigger] tensors[i]).name@ == infos[i].name@,
        forall|i: int, j: int|
            0 <= i < j < infos.len() ==> (#[trigger] infos[i]).name@ != (#[trigger] infos[j]).name@,
        result.len() == places.len(),
        forall|k: int| 0 <= k < places.len() ==> #[trigger] result[k] == tensors[places[k] as int],
    ensures
        arranged(result, tensor_views(tensors)),
{
    let (views, declared) = (tensor_views(result), tensor_views(tensors));
    assert forall|i: int, j: int| 0 <= i < j < result.len() implies order::name_lt(
        (#[trigger] result[i]).name_view(),
        (#[trigger] result[j]).name_view(),
    ) by {
        let (p, q) = (places[i] as int, places[j] as int);
        assert(sort::ahead(infos, p, q));
        sort::lemma_ahead_irreflexive(infos, p);
        assert(infos[p].name@ != infos[q].name@);
        assert(tensors[p].name@ == infos[p].name@ && tensors[q].name@ == infos[q].name@);
    }
    assert(views.no_duplicates()) by {
        assert forall|i: int, j: int|
            0 <= i < views.len() && 0 <= j < views.len() && i != j implies views[i] != views[j] by {
            order::lemma_name_lt_irreflexive(result[i].name@);
            if i < j {
                assert(order::name_lt(result[i].name_view(), result[j].name_view()));
            } else {
                assert(order::name_lt(result[j].name_view(), result[i].name_view()));
            }
        }
    }
    assert(declared.no_duplicates()) by {
        assert forall|i: int, j: int|
            0 <= i < declared.len() && 0 <= j < declared.len() && i != j implies declared[i]
            != declared[j] by {
            assert(infos[i].name@ != infos[j].name@);
            assert(tensors[i].name@ == infos[i].name@ && tensors[j].name@ == infos[j].name@);
        }
    }
    assert forall|k: int| 0 <= k < views.len() implies declared.contains(#[trigger] views[k]) by {
        assert(declared[places[k] as int] == views[k]);
    }
    assert forall|i: int| 0 <= i < declared.len() implies views.contains(#[trigger] declared[i]) by {
        assert(places.contains(i as usize));
        let k = choose|k: int| 0 <= k < places.len() && places[k] == i as usize;
        assert(views[k] == declared[i]);
    }
    sort::lemma_same_items(views, declared);
}

/// Works out the tensors that `infos` declare, and arranges them by name.
pub fn build_inventory(infos: &Vec<TensorInfo>, bytes: &[u8], alignment: u64, data_start: u64) -> (result:
    Result<Vec<ModelTensorMetadata>, GgufError>)
    requires
        alignment != 0,
    ensures
        match inventory_of(info_views(infos@), bytes@, alignment as int, data_start as int) {
            Ok(declared) => result matches Ok(tensors) && arranged(tensors@, declared),
            Err(e) => result matches Err(error) && error@ == e,
        },
{
    let ghost all = info_views(infos@);
    let ghost (file, step, base) = (bytes@, alignment as int, data_start as int);
    let count: usize = infos.len();
    let places = sort::sorted_places(infos);
    proof {
        sort::lemma_in_order_differ(infos@, places@);
    }
    let repeated = repeated_names(infos, &places);
    let mut tensors: Vec<ModelTensorMetadata> = Vec::with_capacity(count);
    let mut ranges: Vec<ByteRange> = Vec::with_capacity(count);
    let mut i: usize = 0;
    proof {
        assert(all.take(0) == Seq::<InfoView>::empty());
        assert(tensor_views(tensors@) == Seq::<TensorView>::empty());
        assert(range::range_views(ranges@) == Seq::<RangeView>::empty());
        assert(range::ranges_of(Seq::empty(), base) == Seq::<RangeView>::empty());
    }
    while i < count
        invariant
            alignment != 0,
            file == bytes@,
            step == alignment as int,
            base == data_start as int,
            all == info_views(infos@),
            count == infos@.len(),
            i <= count,
            repeated@.len() == count,
            forall|p: int|
                0 <= p < count ==> #[trigger] repeated@[p] == declares(
                    all.take(p),
                    infos@[p].name@,
                ),
            tensors_of(all.take(i as int), file, step, base) == Ok::<Seq<TensorView>, ErrorView>(
                tensor_views(tensors@),
            ),
            range::range_views(ranges@) == range::ranges_of(tensor_views(tensors@), base),
        decreases count - i,
    {
        let info = &infos[i];
        let ghost upto = all.take(i + 1);
        let ghost (before, ranges_before) = (tensor_views(tensors@), range::range_views(ranges@));
        proof {
            assert(upto.drop_last() == all.take(i as int));
            assert(upto.last() == info@);
        }
        if repeated[i] {
            proof {
                lemma_first_error(all, i + 1, file, step, base);
            }
            return Err(GgufError::DuplicateTensorName { name: info.name.clone() });
        }
        let tensor = match tensor::resolve_tensor(info, bytes, alignment, data_start) {
            Ok(tensor) => tensor,
            Err(error) => {
                proof {
                    lemma_first_error(all, i + 1, file, step, base);
                }
                return Err(error);
            },
        };
        let start: u64 = data_start + info.offset;
        let size: u64 = match tensor.size_bytes {
            Some(size) => size,
            None => 0,
        };
        let range = ByteRange { start, end: start + size, name: info.name.clone() };
        let ghost (tensor_view, range_view) = (tensor@, range@);
        ranges.push(range);
        tensors.push(tensor);
        i = i + 1;
        proof {
            assert(range_view == range::range_of(tensor_view, base));
            assert(tensor_views(tensors@) == before.push(tensor_view));
            assert(range::range_views(ranges@) == ranges_before.push(range_view));
            assert(range::ranges_of(before.push(tensor_view), base) == range::ranges_of(
                before,
                base,
            ).push(range_view));
        }
    }
    let ghost declared = tensor_views(tensors@);
    proof {
        assert(all.take(i as int) == all);
        lemma_tensors_of(all, file, step, base);
        assert forall|i: int, j: int| 0 <= i < j < infos@.len() implies (
        #[trigger] infos@[i]).name@ != (#[trigger] infos@[j]).name@ by {
            assert(all[i].name != all[j].name);
        }
        assert forall|i: int| 0 <= i < infos@.len() implies (#[trigger] tensors@[i]).name@
            == infos@[i].name@ by {
            assert(tensor::tensor_of(all[i], file, step, base) == Ok::<TensorView, ErrorView>(
                declared[i],
            ));
        }
        let views = range::range_views(ranges@);
        assert forall|i: int, j: int| 0 <= i < j < views.len() implies (#[trigger] views[i]).name
            != (#[trigger] views[j]).name by {
            assert(tensors@[i].name@ == infos@[i].name@ && tensors@[j].name@ == infos@[j].name@);
        }
    }
    match range::find_overlap(&ranges) {
        Some((first, second)) => Err(GgufError::OverlappingRanges { first, second }),
        None => {
            let ghost unsorted = tensors@;
            let result = sort::picked(tensors, &places);
            proof {
                lemma_arranged(infos@, places@, unsorted, result@);
            }
            Ok(result)
        },
    }
}

/// Where declaration `k` is the first that has the name of an earlier one or is
/// rejected by itself, all of them are rejected for it: for the name first.
pub proof fn law_wrong_tensor(
    infos: Seq<InfoView>,
    k: int,
    file: Seq<u8>,
    alignment: int,
    data_start: int,
)
    requires
        0 <= k < infos.len(),
        forall|i: int|
            0 <= i < k ==> tensor::tensor_of(#[trigger] infos[i], file, alignment, data_start) is Ok,
        forall|i: int, j: int|
            0 <= i < j < k ==> (#[trigger] infos[i]).name != (#[trigger] infos[j]).name,
    ensures
        (exists|i: int| 0 <= i < k && (#[trigger] infos[i]).name == infos[k].name) ==> tensors_of(
            infos,
            file,
            alignment,
            data_start,
        ) == Err::<Seq<TensorView>, ErrorView>(
            ErrorView::DuplicateTensorName { name: infos[k].name },
        ),
        (forall|i: int| 0 <= i < k ==> (#[trigger] infos[i]).name != infos[k].name) ==> (
        tensor::tensor_of(infos[k], file, alignment, data_start) matches Err(e) ==> tensors_of(
            infos,
            file,
            alignment,
            data_start,
        ) == Err::<Seq<TensorView>, ErrorView>(e)),
{
    let earlier = infos.take(k);
    let upto = infos.take(k + 1);
    assert(upto.drop_last() =~= earlier);
    assert(upto.last() == infos[k]);
    assert forall|i: int| 0 <= i < earlier.len() implies tensor::tensor_of(
        #[trigger] earlier[i],
        file,
        alignment,
        data_start,
    ) is Ok by {
        assert(earlier[i] == infos[i]);
    }
    assert forall|i: int, j: int| 0 <= i < j < earlier.len() implies (#[trigger] earlier[i]).name
        != (#[trigger] earlier[j]).name by {
        assert(earlier[i] == infos[i] && earlier[j] == infos[j]);
    }
    law_right_tensors(earlier, file, alignment, data_start);
    if exists|i: int| 0 <= i < k && (#[trigger] infos[i]).name == infos[k].name {
        let i = choose|i: int| 0 <= i < k && (#[trigger] infos[i]).name == infos[k].name;
        assert(earlier[i].name == infos[k].name);
        lemma_first_error(infos, k + 1, file, alignment, data_start);
    } else {
        if declares(earlier, infos[k].name) {
            let i = choose|i: int|
                0 <= i < earlier.len() && (#[trigger] earlier[i]).name == infos[k].name;
            assert(infos[i].name == infos[k].name);
        }
        if tensor::tensor_of(infos[k], file, alignment, data_start) is Err {
            lemma_first_error(infos, k + 1, file, alignment, data_start);
        }
    }
}

/// Where each declaration is accepted by itself and no two have the same name,
/// there is a tensor for each, in the same order.
pub proof fn law_right_tensors(
    infos: Seq<InfoView>,
    file: Seq<u8>,
    alignment: int,
    data_start: int,
)
    requires
        forall|i: int|
            0 <= i < infos.len() ==> tensor::tensor_of(
                #[trigger] infos[i],
                file,
                alignment,
                data_start,
            ) is Ok,
        forall|i: int, j: int|
            0 <= i < j < infos.len() ==> (#[trigger] infos[i]).name != (#[trigger] infos[j]).name,
    ensures
        tensors_of(infos, file, alignment, data_start) matches Ok(tensors) && tensors.len()
            == infos.len() && forall|i: int|
            0 <= i < infos.len() ==> #[trigger] tensors[i] == tensor::tensor_of(
                infos[i],
                file,
                alignment,
                data_start,
            )->Ok_0,
    decreases infos.len(),
{
    if infos.len() > 0 {
        let earlier = infos.drop_last();
        let last = infos.len() - 1;
        assert forall|i: int| 0 <= i < earlier.len() implies tensor::tensor_of(
            #[trigger] earlier[i],
            file,
            alignment,
            data_start,
        ) is Ok by {
            assert(earlier[i] == infos[i]);
        }
        assert forall|i: int, j: int| 0 <= i < j < earlier.len() implies (
        #[trigger] earlier[i]).name != (#[trigger] earlier[j]).name by {
            assert(earlier[i] == infos[i] && earlier[j] == infos[j]);
        }
        law_right_tensors(earlier, file, alignment, data_start);
        assert(infos[last] == infos.last());
        if declares(earlier, infos[last].name) {
            let i = choose|i: int|
                0 <= i < earlier.len() && (#[trigger] earlier[i]).name == infos[last].name;
            assert(infos[i].name == infos[last].name);
        }
        let tensors = tensors_of(infos, file, alignment, data_start)->Ok_0;
        assert forall|i: int| 0 <= i < infos.len() implies #[trigger] tensors[i]
            == tensor::tensor_of(infos[i], file, alignment, data_start)->Ok_0 by {
            if i < last {
                assert(earlier[i] == infos[i]);
            }
        }
    }
}

/// The contents of lists are those of each item, in order.
pub proof fn law_list_contents(infos: Seq<TensorInfo>, tensors: Seq<ModelTensorMetadata>)
    ensures
        info_views(infos).len() == infos.len(),
        forall|i: int| 0 <= i < infos.len() ==> #[trigger] info_views(infos)[i] == infos[i]@,
        tensor_views(tensors).len() == tensors.len(),
        forall|i: int| 0 <= i < tensors.len() ==> #[trigger] tensor_views(tensors)[i]
            == tensors[i]@,
{
}

} // verus!
