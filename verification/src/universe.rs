//! The asset universe: the ordered, fixed list of assets that every weight vector is
//! indexed by.

use vstd::prelude::*;
use crate::asset::Asset;

verus! {

/// An ordered list of assets. Names are not required to differ.
#[derive(Debug)]
pub struct AssetList {
    assets: Vec<Asset>,
}

impl View for AssetList {
    type V = Seq<Asset>;

    closed spec fn view(&self) -> Seq<Asset> {
        self.assets@
    }
}

impl AssetList {
    pub fn new(assets: Vec<Asset>) -> (list: Self)
        ensures
            list@ == assets@,
    {
        Self { assets }
    }

    pub fn len(&self) -> (n: usize)
        ensures
            n == self@.len(),
    {
        self.assets.len()
    }

    /// The asset at `index`, if the list is that long.
    pub fn get(&self, index: usize) -> (asset: Option<&Asset>)
        ensures
            index < self@.len() ==> asset == Some(&self@[index as int]),
            index >= self@.len() ==> asset.is_none(),
    {
        if index < self.assets.len() {
            Some(&self.assets[index])
        } else {
            None
        }
    }

    /// A builder that holds no asset yet.
    pub fn builder() -> (builder: AssetListBuilder)
        ensures
            builder@ == Seq::<Asset>::empty(),
    {
        AssetListBuilder::new()
    }
}

/// Collects assets, in the order in which they are added, into an `AssetList`.
pub struct AssetListBuilder {
    assets: Vec<Asset>,
}

impl View for AssetListBuilder {
    type V = Seq<Asset>;

    closed spec fn view(&self) -> Seq<Asset> {
        self.assets@
    }
}

impl AssetListBuilder {
    pub fn new() -> (builder: Self)
        ensures
            builder@ == Seq::<Asset>::empty(),
    {
        Self { assets: Vec::new() }
    }

    pub fn add_asset(self, asset: Asset) -> (builder: Self)
        ensures
            builder@ == self@.push(asset),
    {
        let mut assets = self.assets;
        assets.push(asset);
        Self { assets }
    }

    pub fn build(self) -> (list: AssetList)
        ensures
            list@ == self@,
    {
        AssetList::new(self.assets)
    }
}

} // verus!
