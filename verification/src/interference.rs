//! The models of how jobs that share servers slow each other down.

use vstd::prelude::*;

use crate::text::same_text;

verus! {

/// Interference model for bandwidth contention.
#[derive(Debug, Clone, Copy, PartialEq, Eq, Structural)]
pub enum InterferenceModel {
    /// Jobs do not slow each other down.
    Absent,
    Fixed,
    Comms,
    CommsIter,
    CommsIterIntra,
    CommsIterLcm,
    CommsIterIntraLcm,
    /// Co-run profile: iteration_computing_time and iteration_networking_time
    /// are looked up per-(model, gpu_workers) and updated dynamically based
    /// on which jobs share each server. Single-iteration mode (no compute/
    /// comm phase split, no bandwidth contention multiplier).
    CorunProfile,
}

/// The interference model of a name. `mosim` is another name of
/// `comms-iter-intra`.
pub open spec fn model_named(name: Seq<char>) -> Option<InterferenceModel> {
    if name == "none"@ {
        Some(InterferenceModel::Absent)
    } else if name == "fixed"@ {
        Some(InterferenceModel::Fixed)
    } else if name == "comms"@ {
        Some(InterferenceModel::Comms)
    } else if name == "comms-iter"@ {
        Some(InterferenceModel::CommsIter)
    } else if name == "mosim"@ || name == "comms-iter-intra"@ {
        Some(InterferenceModel::CommsIterIntra)
    } else if name == "comms-iter-lcm"@ {
        Some(InterferenceModel::CommsIterLcm)
    } else if name == "comms-iter-intra-lcm"@ {
        Some(InterferenceModel::CommsIterIntraLcm)
    } else if name == "corun-profile"@ {
        Some(InterferenceModel::CorunProfile)
    } else {
        None
    }
}

impl InterferenceModel {
    /// The model of a name, which must be the name of one.
    pub fn from_str(s: &str) -> (result: Self)
        requires
            model_named(s@) is Some,
        ensures
            Some(result) == model_named(s@),
    {
        match Self::parse(s) {
            Some(model) => model,
            None => InterferenceModel::Absent,
        }
    }

    /// The model of a name, if it is the name of one.
    pub fn parse(s: &str) -> (result: Option<Self>)
        ensures
            result == model_named(s@),
    {
        if same_text(s, "none") {
            Some(InterferenceModel::Absent)
        } else if same_text(s, "fixed") {
            Some(InterferenceModel::Fixed)
        } else if same_text(s, "comms") {
            Some(InterferenceModel::Comms)
        } else if same_text(s, "comms-iter") {
            Some(InterferenceModel::CommsIter)
        } else if same_text(s, "mosim") || same_text(s, "comms-iter-intra") {
            Some(InterferenceModel::CommsIterIntra)
        } else if same_text(s, "comms-iter-lcm") {
            Some(InterferenceModel::CommsIterLcm)
        } else if same_text(s, "comms-iter-intra-lcm") {
            Some(InterferenceModel::CommsIterIntraLcm)
        } else if same_text(s, "corun-profile") {
            Some(InterferenceModel::CorunProfile)
        } else {
            None
        }
    }

    /// Whether the model splits iterations into compute and communication.
    pub open spec fn iterates(self) -> bool {
        self is CommsIter || self is CommsIterIntra || self is CommsIterLcm
            || self is CommsIterIntraLcm
    }

    /// Whether the model splits iterations into compute and communication.
    pub fn is_iter_model(&self) -> (result: bool)
        ensures
            result == self.iterates(),
    {
        matches!(
            self,
            InterferenceModel::CommsIter | InterferenceModel::CommsIterIntra
                | InterferenceModel::CommsIterLcm | InterferenceModel::CommsIterIntraLcm
        )
    }

    /// Whether the model skips over repeating cycles of iterations.
    pub open spec fn skips_cycles(self) -> bool {
        self is CommsIterLcm || self is CommsIterIntraLcm
    }

    /// Whether the model skips over repeating cycles of iterations.
    pub fn is_lcm_model(&self) -> (result: bool)
        ensures
            result == self.skips_cycles(),
    {
        matches!(self, InterferenceModel::CommsIterLcm | InterferenceModel::CommsIterIntraLcm)
    }

    /// Whether the model knows of contention inside a server.
    pub open spec fn looks_inside(self) -> bool {
        self is CommsIterIntra || self is CommsIterIntraLcm
    }

    /// Whether the model knows of contention inside a server.
    pub fn is_intra_model(&self) -> (result: bool)
        ensures
            result == self.looks_inside(),
    {
        matches!(self, InterferenceModel::CommsIterIntra | InterferenceModel::CommsIterIntraLcm)
    }

    /// Whether the model looks iteration times up in profiles of jobs run together.
    pub fn is_corun_profile(&self) -> (result: bool)
        ensures
            result == (*self is CorunProfile),
    {
        matches!(self, InterferenceModel::CorunProfile)
    }
}

/// Models that skip over cycles, and those that look inside a server, are among
/// those that split iterations; the co-run profile is not.
pub proof fn models_that_split_iterations(model: InterferenceModel)
    ensures
        model.skips_cycles() ==> model.iterates(),
        model.looks_inside() ==> model.iterates(),
        model is CorunProfile ==> !model.iterates(),
{
}

/// Whether a contention model, if one is named, is the M/M/1 model.
pub fn is_mm1(name: Option<&str>) -> (result: bool)
    ensures
        result == (name matches Some(name) && name@ == "mm1"@),
{
    match name {
        Some(name) => same_text(name, "mm1"),
        None => false,
    }
}

/// The models that look inside servers, and those that skip over cycles, are those whose names say
/// so; all of these and the plain one split iterations, and no other does.
pub proof fn models_do_what_their_names_say(model: InterferenceModel)
    ensures
        model.looks_inside() <==> model == InterferenceModel::CommsIterIntra || model
            == InterferenceModel::CommsIterIntraLcm,
        model.skips_cycles() <==> model == InterferenceModel::CommsIterLcm || model
            == InterferenceModel::CommsIterIntraLcm,
        model.iterates() <==> !(model == InterferenceModel::Absent || model
            == InterferenceModel::Fixed || model == InterferenceModel::Comms || model
            == InterferenceModel::CorunProfile),
{
}

/// A name says what the model of the name does: it skips cycles where the name ends so, splits iterations
/// where the name begins so, and looks inside servers where the name goes on so. `mosim` does the
/// latter two.
pub proof fn names_say_what_models_do(name: Seq<char>)
    ensures
        model_named(name) matches Some(model) ==> {
            &&& model.skips_cycles() <==> name.len() >= 4 && name.skip(name.len() - 4) == "-lcm"@
            &&& model.iterates() <==> name == "mosim"@ || name.len() >= 10 && name.take(10)
                == "comms-iter"@
            &&& model.looks_inside() <==> name == "mosim"@ || name.len() >= 16 && name.take(16)
                == "comms-iter-intra"@
        },
{
    reveal_strlit("none");
    reveal_strlit("fixed");
    reveal_strlit("comms");
    reveal_strlit("comms-iter");
    reveal_strlit("mosim");
    reveal_strlit("comms-iter-intra");
    reveal_strlit("comms-iter-lcm");
    reveal_strlit("comms-iter-intra-lcm");
    reveal_strlit("corun-profile");
    reveal_strlit("-lcm");
    assert("fixed"@[0] != "mosim"@[0] && "comms"@[0] != "mosim"@[0]);
    if model_named(name) is Some {
        let ending = name.skip(name.len() - 4);
        if model_named(name)->0.skips_cycles() {
            assert(ending =~= "-lcm"@);
        } else {
            assert(ending[0] != "-lcm"@[0] || ending[1] != "-lcm"@[1]);
        }
        if name.len() >= 10 {
            let start = name.take(10);
            if name == "corun-profile"@ {
                assert(start[2] != "comms-iter"@[2]);
            } else {
                assert(start =~= "comms-iter"@);
            }
        }
        if name.len() >= 16 {
            assert(name.take(16) =~= "comms-iter-intra"@);
        }
    }
}

} // verus!
