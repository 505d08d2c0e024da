//! How a session begins: from stored projects, from what earlier sessions stored under
//! single keys, or afresh. What cannot be read is kept, not lost.

use vstd::prelude::*;

use crate::c531_design::C531Design;
use crate::mcu::default_key;
use crate::mcu::part_with_key;
use crate::mcu::variant_key;
use crate::mcu::Mcu;
use crate::mcu::Package;
use crate::pinout::ChipVariant;
use crate::project::project_views;
use crate::project::FamilyShelf;
use crate::project::Project;
use crate::project::ProjectView;
use crate::requirements::Design;
use crate::session::landed;
use crate::session::AppView;
use crate::session::PeriPlannerApp;
use crate::session::ViewMode;

verus! {

/// What was stored under single keys, each as far as it is there.
pub struct SingleKeys {
    /// The design, with the variant that it is for.
    pub design: Option<(Design, ChipVariant)>,
    pub variant: Option<ChipVariant>,
    pub mcu: Option<Mcu>,
    pub h523_designs: Option<FamilyShelf>,
    pub c531_design: Option<C531Design>,
    pub package: Option<Package>,
}

/// What is found in the store.
pub enum Stored {
    /// The active project and the others.
    Projects(Project, Vec<Project>),
    /// Something that cannot be read as projects.
    Unreadable(String),
    /// No projects.
    Single(SingleKeys),
}

/// A project with what was stored under single keys. Without a stored package it is the
/// part of the variant, where that is registered.
pub open spec fn with_single(p: ProjectView, k: SingleKeys, all: Seq<Package>) -> ProjectView {
    let variant = match k.variant {
        Some(v) => v,
        None => match k.design {
            Some(d) => d.1,
            None => p.variant,
        },
    };
    ProjectView {
        design: match k.design {
            Some(d) => d.0@,
            None => p.design,
        },
        variant,
        mcu: match k.mcu {
            Some(m) => m,
            None => p.mcu,
        },
        h523_designs: match k.h523_designs {
            Some(v) => v@,
            None => p.h523_designs,
        },
        c531_design: match k.c531_design {
            Some(d) => d@,
            None => p.c531_design,
        },
        package: match k.package {
            Some(x) => x,
            None => match part_with_key(all, variant_key(variant), 0) {
                Some(x) => x,
                None => p.package,
            },
        },
        ..p
    }
}

/// A project whose package is of its family: where it is not, the package that the family
/// opens with, where that is registered.
pub open spec fn in_family(p: ProjectView, all: Seq<Package>) -> ProjectView {
    ProjectView {
        package: if p.package.info.mcu == p.mcu {
            p.package
        } else {
            match part_with_key(all, default_key(p.mcu), 0) {
                Some(x) => x,
                None => p.package,
            }
        },
        ..p
    }
}

/// A session with what is found in the store.
pub open spec fn with_stored(a: AppView, s: Stored, all: Seq<Package>) -> AppView {
    match s {
        Stored::Projects(active, others) => AppView {
            active: active@,
            others: project_views(others@),
            ..a
        },
        Stored::Unreadable(text) => AppView { corrupt_blob: Some(text@), ..a },
        Stored::Single(k) => AppView { active: with_single(a.active, k, all), ..a },
    }
}

/// A session as it begins.
pub open spec fn begun(a: AppView, view: Option<ViewMode>, s: Stored, all: Seq<Package>) -> AppView {
    let b = with_stored(
        AppView {
            view: match view {
                Some(v) => v,
                None => a.view,
            },
            ..a
        },
        s,
        all,
    );
    landed(AppView { active: in_family(b.active, all), ..b })
}

impl PeriPlannerApp {
    fn take_single(&mut self, k: SingleKeys, all: &[Package])
        ensures
            final(self)@ == (AppView {
                active: with_single(old(self)@.active, k, all@),
                ..old(self)@
            }),
    {
        if let Some((d, v)) = k.design {
            self.active.design = d;
            self.active.variant = v;
        }
        if let Some(v) = k.variant {
            self.active.variant = v;
        }
        if let Some(m) = k.mcu {
            self.active.mcu = m;
        }
        if let Some(v) = k.h523_designs {
            self.active.h523_designs = v;
        }
        if let Some(d) = k.c531_design {
            self.active.c531_design = d;
        }
        match k.package {
            Some(p) => {
                self.active.package = p;
            },
            None => {
                if let Some(p) = Package::from_g474_variant(self.active.variant, all) {
                    self.active.package = p;
                }
            },
        }
    }

    /// Begin with what is found in the store: the view, and the projects or what stands
    /// for them.
    pub fn begin(&mut self, view: Option<ViewMode>, stored: Stored, all: &[Package])
        ensures
            final(self)@ == begun(old(self)@, view, stored, all@),
    {
        if let Some(v) = view {
            self.view = v;
        }
        match stored {
            Stored::Projects(active, others) => {
                self.active = active;
                self.others = others;
            },
            Stored::Unreadable(text) => {
                self.corrupt_blob = Some(text);
            },
            Stored::Single(k) => {
                self.take_single(k, all);
            },
        }
        if self.active.package.mcu() != self.active.mcu {
            if let Some(p) = self.active.mcu.default_package(all) {
                self.active.package = p;
            }
        }
        self.land_on_active_view();
    }
}

/// What cannot be read changes no project, and is kept to be stored apart.
pub proof fn unreadable_is_kept(a: AppView, view: Option<ViewMode>, text: String, all: Seq<Package>)
    requires
        a.active.package.info.mcu == a.active.mcu,
    ensures
        begun(a, view, Stored::Unreadable(text), all).corrupt_blob == Some(text@),
        begun(a, view, Stored::Unreadable(text), all).active == a.active,
        begun(a, view, Stored::Unreadable(text), all).others == a.others,
{
}

/// Where the family that opens with it is registered, the active package is of the active
/// family, whatever was stored.
pub proof fn package_is_of_family(
    a: AppView,
    view: Option<ViewMode>,
    s: Stored,
    all: Seq<Package>,
    m: Mcu,
)
    requires
        begun(a, view, s, all).active.mcu == m,
        part_with_key(all, default_key(m), 0) matches Some(p) && p.info.mcu == m,
    ensures
        begun(a, view, s, all).active.package.info.mcu == m,
{
}

} // verus!
