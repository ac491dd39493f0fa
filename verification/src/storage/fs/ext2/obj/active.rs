//! The objects that stand for the files and directories in use. A handle names
//! a file or a directory by its inode; which object stands for the inode is
//! kept here, so that all who have it open have the same one.

use crate::object::directory::FILENAME_LEN_MAX;
use crate::object::invoke::InvocationError;
use crate::storage::blockdev::BlockDevice;
use crate::storage::fs::ext2::obj::dir::{
    child_of, dir_created, file_created, request_fault, was_dir_created, was_file_created,
    Ext2Directory,
};
use crate::storage::fs::ext2::structs::DiskInode;
use crate::storage::fs::ext2::volume::is_directory;
use crate::storage::fs::ext2::Ext2FileSystem;
use std::collections::BTreeMap;
use vstd::prelude::*;

verus! {

/// Objects by the number of their inode. An object that nobody uses any more
/// may still be listed under `files` or `dirs`; one that is listed under
/// `dirty_files` is kept until its pages have been written.
pub struct ActiveObjects {
    pub files: BTreeMap<u32, u64>,
    pub dirs: BTreeMap<u32, u64>,
    pub dirty_files: BTreeMap<u32, u64>,
}

/// The object that stands for an inode, if it has one that is still there:
/// someone uses it, or it is kept.
pub open spec fn living(
    table: Map<u32, u64>,
    kept: Map<u32, u64>,
    in_use: Seq<u64>,
    num: u32,
) -> Option<u64> {
    if table.contains_key(num) && (in_use.contains(table[num]) || kept.contains_pair(
        num,
        table[num],
    )) {
        Some(table[num])
    } else {
        None
    }
}

/// The object that stands for an inode, or the new one where there is none.
pub open spec fn object_for(
    table: Map<u32, u64>,
    kept: Map<u32, u64>,
    in_use: Seq<u64>,
    num: u32,
    fresh: u64,
) -> u64 {
    match living(table, kept, in_use, num) {
        Some(object) => object,
        None => fresh,
    }
}

fn is_in_use(in_use: &Vec<u64>, object: u64) -> (r: bool)
    ensures
        r == in_use@.contains(object),
{
    let mut i: usize = 0;
    while i < in_use.len()
        invariant
            i <= in_use@.len(),
            forall|j: int| 0 <= j < i ==> in_use@[j] != object,
        decreases in_use@.len() - i,
    {
        if in_use[i] == object {
            return true;
        }
        i += 1;
    }
    false
}

impl ActiveObjects {
    pub fn new() -> (r: Self)
        ensures
            r.files@ == Map::<u32, u64>::empty(),
            r.dirs@ == Map::<u32, u64>::empty(),
            r.dirty_files@ == Map::<u32, u64>::empty(),
    {
        ActiveObjects {
            files: BTreeMap::new(),
            dirs: BTreeMap::new(),
            dirty_files: BTreeMap::new(),
        }
    }

    /// The object of a file, where it is still there.
    fn living_file(&self, num: u32, in_use: &Vec<u64>) -> (r: Option<u64>)
        ensures
            r == living(self.files@, self.dirty_files@, in_use@, num),
    {
        match self.files.get(&num) {
            Some(object) => {
                let kept = match self.dirty_files.get(&num) {
                    Some(dirty) => *dirty == *object,
                    None => false,
                };
                if kept || is_in_use(in_use, *object) {
                    Some(*object)
                } else {
                    None
                }
            },
            None => None,
        }
    }

    /// The object that stands for a file: the one that is there, or else
    /// `fresh`, which stands for it from then on.
    pub fn open_file(&mut self, num: u32, in_use: &Vec<u64>, fresh: u64) -> (r: u64)
        ensures
            r == object_for(old(self).files@, old(self).dirty_files@, in_use@, num, fresh),
            final(self).files@ == old(self).files@.insert(num, r),
            final(self).dirs@ == old(self).dirs@,
            final(self).dirty_files@ == old(self).dirty_files@,
    {
        match self.living_file(num, in_use) {
            Some(object) => {
                assert(self.files@ =~= self.files@.insert(num, object));
                object
            },
            None => {
                self.files.insert(num, fresh);
                fresh
            },
        }
    }

    /// The object that stands for a directory: the one that is there, or else
    /// `fresh`, which stands for it from then on.
    pub fn open_dir(&mut self, num: u32, in_use: &Vec<u64>, fresh: u64) -> (r: u64)
        ensures
            r == object_for(old(self).dirs@, Map::empty(), in_use@, num, fresh),
            final(self).dirs@ == old(self).dirs@.insert(num, r),
            final(self).files@ == old(self).files@,
            final(self).dirty_files@ == old(self).dirty_files@,
    {
        let there = match self.dirs.get(&num) {
            Some(object) => if is_in_use(in_use, *object) {
                Some(*object)
            } else {
                None
            },
            None => None,
        };
        match there {
            Some(object) => {
                assert(self.dirs@ =~= self.dirs@.insert(num, object));
                object
            },
            None => {
                self.dirs.insert(num, fresh);
                fresh
            },
        }
    }

    /// Lists the object of a file that has just been made.
    pub fn made_file(&mut self, num: u32, object: u64)
        ensures
            final(self).files@ == old(self).files@.insert(num, object),
            final(self).dirs@ == old(self).dirs@,
            final(self).dirty_files@ == old(self).dirty_files@,
    {
        self.files.insert(num, object);
    }

    /// Lists the object of a directory that has just been made.
    pub fn made_dir(&mut self, num: u32, object: u64)
        ensures
            final(self).dirs@ == old(self).dirs@.insert(num, object),
            final(self).files@ == old(self).files@,
            final(self).dirty_files@ == old(self).dirty_files@,
    {
        self.dirs.insert(num, object);
    }

    /// Keeps the object of a file that has been written, where it is still
    /// there.
    pub fn written_file(&mut self, num: u32, in_use: &Vec<u64>)
        ensures
            final(self).files@ == old(self).files@,
            final(self).dirs@ == old(self).dirs@,
            final(self).dirty_files@ == match living(
                old(self).files@,
                old(self).dirty_files@,
                in_use@,
                num,
            ) {
                Some(object) => old(self).dirty_files@.insert(num, object),
                None => old(self).dirty_files@,
            },
    {
        if let Some(object) = self.living_file(num, in_use) {
            self.dirty_files.insert(num, object);
        }
    }
}

impl Ext2Directory {
    /// Looks a name up and gives the object that stands for what it names,
    /// with its inode. `in_use` are the objects that someone uses, and `fresh`
    /// is the number of a new one, for an inode that has none.
    pub fn open_child<D: BlockDevice>(
        &self,
        fs: &Ext2FileSystem<D>,
        name: &Vec<u8>,
        active: &mut ActiveObjects,
        in_use: &Vec<u64>,
        fresh: u64,
    ) -> (r: Result<(u64, u32, DiskInode), InvocationError>)
        requires
            fs.wf(),
        ensures
            r is Ok || fs.reliable() || name@.len() > FILENAME_LEN_MAX ==> match child_of(
                fs.geo(),
                fs.volume(),
                self.inode_data,
                name@,
            ) {
                Err(fault) => r == Err::<(u64, u32, DiskInode), InvocationError>(fault),
                Ok((num, inode)) => r is Ok && (r->Ok_0).1 == num && (r->Ok_0).2 == inode,
            },
            final(active).dirty_files@ == old(active).dirty_files@,
            match r {
                Err(_) => {
                    &&& final(active).files@ == old(active).files@
                    &&& final(active).dirs@ == old(active).dirs@
                },
                Ok((object, num, inode)) => if is_directory(inode) {
                    &&& object == object_for(old(active).dirs@, Map::empty(), in_use@, num, fresh)
                    &&& final(active).dirs@ == old(active).dirs@.insert(num, object)
                    &&& final(active).files@ == old(active).files@
                } else {
                    &&& object == object_for(
                        old(active).files@,
                        old(active).dirty_files@,
                        in_use@,
                        num,
                        fresh,
                    )
                    &&& final(active).files@ == old(active).files@.insert(num, object)
                    &&& final(active).dirs@ == old(active).dirs@
                },
            },
    {
        match self.lookup_child(fs, name) {
            Ok((num, inode)) => {
                let object = if inode.mode / 0x1000 == 4 {
                    active.open_dir(num, in_use, fresh)
                } else {
                    active.open_file(num, in_use, fresh)
                };
                Ok((object, num, inode))
            },
            Err(fault) => Err(fault),
        }
    }

    /// Makes a file and lists `object` as what stands for it.
    pub fn open_new_file<D: BlockDevice>(
        &mut self,
        fs: &mut Ext2FileSystem<D>,
        name: &Vec<u8>,
        owner: u32,
        now: u32,
        active: &mut ActiveObjects,
        object: u64,
    ) -> (r: Result<(u32, DiskInode), InvocationError>)
        requires
            old(fs).wf(),
        ensures
            final(fs).wf(),
            final(fs).geo() == old(fs).geo(),
            final(self).inode_num == old(self).inode_num,
            old(fs).reliable() ==> final(fs).reliable(),
            old(fs).reliable() ==> file_created(
                old(fs).geo(),
                old(fs).volume(),
                old(self).inode_num,
                old(self).inode_data,
                name@,
                owner,
                now,
            ) == (r, final(fs).volume(), final(self).inode_data),
            r matches Ok(made) ==> was_file_created(
                old(fs).geo(),
                old(fs).volume(),
                final(fs).volume(),
                old(self).inode_num,
                old(self).inode_data,
                final(self).inode_data,
                name@,
                owner,
                now,
                made,
            ),
            request_fault(name@, owner) matches Some(fault) ==> {
                &&& r == Err::<(u32, DiskInode), InvocationError>(fault)
                &&& *final(fs) == *old(fs)
                &&& *final(self) == *old(self)
            },
            final(active).dirty_files@ == old(active).dirty_files@,
            final(active).dirs@ == old(active).dirs@,
            final(active).files@ == match r {
                Ok((num, _)) => old(active).files@.insert(num, object),
                Err(_) => old(active).files@,
            },
    {
        let made = self.create_child_file(fs, name, owner, now);
        if let Ok((num, _)) = made {
            active.made_file(num, object);
        }
        made
    }

    /// Makes a directory and lists `object` as what stands for it.
    pub fn open_new_dir<D: BlockDevice>(
        &mut self,
        fs: &mut Ext2FileSystem<D>,
        name: &Vec<u8>,
        owner: u32,
        now: u32,
        active: &mut ActiveObjects,
        object: u64,
    ) -> (r: Result<(u32, DiskInode), InvocationError>)
        requires
            old(fs).wf(),
        ensures
            final(fs).wf(),
            final(fs).geo() == old(fs).geo(),
            final(self).inode_num == old(self).inode_num,
            old(fs).reliable() ==> final(fs).reliable(),
            old(fs).reliable() ==> dir_created(
                old(fs).geo(),
                old(fs).volume(),
                old(self).inode_num,
                old(self).inode_data,
                name@,
                owner,
                now,
            ) == (r, final(fs).volume(), final(self).inode_data),
            r matches Ok(made) ==> was_dir_created(
                old(fs).geo(),
                old(fs).volume(),
                final(fs).volume(),
                old(self).inode_num,
                old(self).inode_data,
                final(self).inode_data,
                name@,
                owner,
                now,
                made,
            ),
            request_fault(name@, owner) matches Some(fault) ==> {
                &&& r == Err::<(u32, DiskInode), InvocationError>(fault)
                &&& *final(fs) == *old(fs)
                &&& *final(self) == *old(self)
            },
            final(active).dirty_files@ == old(active).dirty_files@,
            final(active).files@ == old(active).files@,
            final(active).dirs@ == match r {
                Ok((num, _)) => old(active).dirs@.insert(num, object),
                Err(_) => old(active).dirs@,
            },
    {
        let made = self.create_child_dir(fs, name, owner, now);
        if let Ok((num, _)) = made {
            active.made_dir(num, object);
        }
        made
    }
}

/// Whoever opens what someone else has open gets the same object, and the
/// table stays as it is.
pub proof fn law_second_lookup_gives_the_open_object(
    table: Map<u32, u64>,
    kept: Map<u32, u64>,
    num: u32,
    first_in_use: Seq<u64>,
    first_fresh: u64,
    in_use: Seq<u64>,
    fresh: u64,
)
    requires
        in_use.contains(object_for(table, kept, first_in_use, num, first_fresh)),
    ensures
        ({
            let object = object_for(table, kept, first_in_use, num, first_fresh);
            let after = table.insert(num, object);
            &&& object_for(after, kept, in_use, num, fresh) == object
            &&& after.insert(num, object) == after
        }),
{
    let object = object_for(table, kept, first_in_use, num, first_fresh);
    let after = table.insert(num, object);
    assert(after.insert(num, object) =~= after);
}

/// What has been listed for an inode, as a file or directory that has just been
/// made is, is what a lookup gives as long as someone uses it.
pub proof fn law_listed_object_is_found(
    table: Map<u32, u64>,
    kept: Map<u32, u64>,
    num: u32,
    object: u64,
    in_use: Seq<u64>,
    fresh: u64,
)
    requires
        in_use.contains(object),
    ensures
        object_for(table.insert(num, object), kept, in_use, num, fresh) == object,
{
}

/// A file that has been written while it was open is the same object to
/// whoever opens it next, even if nobody has it open in between.
pub proof fn law_written_file_is_kept(
    table: Map<u32, u64>,
    kept: Map<u32, u64>,
    num: u32,
    first_in_use: Seq<u64>,
    in_use: Seq<u64>,
    fresh: u64,
)
    requires
        living(table, kept, first_in_use, num) is Some,
    ensures
        ({
            let object = living(table, kept, first_in_use, num)->0;
            object_for(table, kept.insert(num, object), in_use, num, fresh) == object
        }),
{
}

/// Opening one file does not change which object stands for another.
pub proof fn law_other_files_keep_their_objects(
    table: Map<u32, u64>,
    kept: Map<u32, u64>,
    num: u32,
    object: u64,
    other: u32,
    in_use: Seq<u64>,
)
    requires
        other != num,
    ensures
        living(table.insert(num, object), kept, in_use, other) == living(
            table,
            kept,
            in_use,
            other,
        ),
{
}

} // verus!
