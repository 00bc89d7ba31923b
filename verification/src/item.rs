use vstd::prelude::*;

verus! {

/// A uniquely identified record managed by the registry.
#[derive(Debug)]
pub struct Item {
    pub id: u32,
    pub name: String,
    pub status: String,
    pub stream_url: String,
}

/// The mathematical model of an `Item`: its numeric id together with the
/// character sequences of its three text fields.
#[verifier::ext_equal]
pub ghost struct ItemView {
    pub id: u32,
    pub name: Seq<char>,
    pub status: Seq<char>,
    pub stream_url: Seq<char>,
}

impl View for Item {
    type V = ItemView;

    open spec fn view(&self) -> ItemView {
        ItemView {
            id: self.id,
            name: self.name@,
            status: self.status@,
            stream_url: self.stream_url@,
        }
    }
}

impl Clone for Item {
    fn clone(&self) -> (r: Item)
        ensures
            r@ == self@,
    {
        Item {
            id: self.id,
            name: self.name.clone(),
            status: self.status.clone(),
            stream_url: self.stream_url.clone(),
        }
    }
}

/// The models of the items of a sequence, in the same order.
pub open spec fn views_of(s: Seq<Item>) -> Seq<ItemView> {
    s.map_values(|it: Item| it@)
}

} // verus!
