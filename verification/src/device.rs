//! Where the network runs.

use vstd::prelude::*;

verus! {

/// A device that the network can run on; GPUs by their number.
#[derive(Clone, Copy, Debug, PartialEq, Eq, Structural)]
pub enum DeviceChoice {
    Cpu,
    Cuda(usize),
    Metal(usize),
}

/// What to say of a build that cannot use a GPU.
#[derive(Clone, Copy, Debug, PartialEq, Eq, Structural)]
pub enum DeviceNotice {
    /// That a build with the feature `metal` could.
    BuildWithMetal,
    /// That a build with the feature `cuda` could.
    BuildWithCuda,
}

/// The device, and what to say: the CPU if asked for, else the first GPU that
/// can be used, else the CPU with a notice unless there is to be none.
pub open spec fn chosen_device(
    use_cpu: bool,
    quiet: bool,
    cuda: bool,
    metal: bool,
    apple_silicon: bool,
) -> (DeviceChoice, Option<DeviceNotice>) {
    if use_cpu {
        (DeviceChoice::Cpu, None)
    } else if cuda {
        (DeviceChoice::Cuda(0), None)
    } else if metal {
        (DeviceChoice::Metal(0), None)
    } else if quiet {
        (DeviceChoice::Cpu, None)
    } else if apple_silicon {
        (DeviceChoice::Cpu, Some(DeviceNotice::BuildWithMetal))
    } else {
        (DeviceChoice::Cpu, Some(DeviceNotice::BuildWithCuda))
    }
}

/// `candle_core::utils::cuda_is_available`: whether the build can use CUDA. The
/// contract claims nothing of the answer, which depends on how candle is built.
#[verifier::external_body]
fn cuda_is_available() -> (available: bool) {
    candle_core::utils::cuda_is_available()
}

/// `candle_core::utils::metal_is_available`: whether the build can use Metal.
/// The contract claims nothing of the answer, which depends on how candle is
/// built.
#[verifier::external_body]
fn metal_is_available() -> (available: bool) {
    candle_core::utils::metal_is_available()
}

/// Whether candle can say so of CUDA.
pub closed spec fn says_of_cuda(available: bool) -> bool {
    call_ensures(cuda_is_available, (), available)
}

/// Whether candle can say so of Metal.
pub closed spec fn says_of_metal(available: bool) -> bool {
    call_ensures(metal_is_available, (), available)
}

/// The device to run on and what to say, given what the build can use.
pub fn choose_device(
    use_cpu: bool,
    quiet: bool,
    cuda: bool,
    metal: bool,
    apple_silicon: bool,
) -> (choice: (DeviceChoice, Option<DeviceNotice>))
    ensures
        choice == chosen_device(use_cpu, quiet, cuda, metal, apple_silicon),
{
    if use_cpu {
        (DeviceChoice::Cpu, None)
    } else if cuda {
        (DeviceChoice::Cuda(0), None)
    } else if metal {
        (DeviceChoice::Metal(0), None)
    } else if quiet {
        (DeviceChoice::Cpu, None)
    } else if apple_silicon {
        (DeviceChoice::Cpu, Some(DeviceNotice::BuildWithMetal))
    } else {
        (DeviceChoice::Cpu, Some(DeviceNotice::BuildWithCuda))
    }
}

/// The device to run on and what to say, by what candle says that it can use.
pub fn get_device(use_cpu: bool, quiet: bool, apple_silicon: bool) -> (choice: (
    DeviceChoice,
    Option<DeviceNotice>,
))
    ensures
        exists|cuda: bool, metal: bool|
            says_of_cuda(cuda) && says_of_metal(metal) && choice == #[trigger] chosen_device(
                use_cpu,
                quiet,
                cuda,
                metal,
                apple_silicon,
            ),
{
    let ask_about_cuda = cuda_is_available;
    let ask_about_metal = metal_is_available;
    let cuda = ask_about_cuda();
    let metal = ask_about_metal();
    assert(says_of_cuda(cuda) && says_of_metal(metal));
    choose_device(use_cpu, quiet, cuda, metal, apple_silicon)
}

/// The CPU is used if it is asked for, and nothing is said then or when there
/// is to be no notice, whatever the build can use.
pub proof fn law_cpu_on_request(
    use_cpu: bool,
    quiet: bool,
    cuda: bool,
    metal: bool,
    apple_silicon: bool,
)
    ensures
        use_cpu ==> chosen_device(use_cpu, quiet, cuda, metal, apple_silicon) == (
            DeviceChoice::Cpu,
            None::<DeviceNotice>,
        ),
        quiet ==> chosen_device(use_cpu, quiet, cuda, metal, apple_silicon).1 is None,
        chosen_device(use_cpu, quiet, cuda, metal, apple_silicon).1 is Some ==> chosen_device(
            use_cpu,
            quiet,
            cuda,
            metal,
            apple_silicon,
        ).0 == DeviceChoice::Cpu,
{
}

/// The device by what was asked for and what can be used: the CPU on request or
/// where no GPU can be used, CUDA before Metal, and always the first GPU. There is
/// a notice exactly if a GPU was wanted, none can be used, and notices are; it
/// names Metal on Apple silicon and CUDA elsewhere.
pub proof fn law_the_first_gpu_else_the_cpu(
    use_cpu: bool,
    quiet: bool,
    cuda: bool,
    metal: bool,
    apple_silicon: bool,
    choice: (DeviceChoice, Option<DeviceNotice>),
)
    requires
        call_ensures(choose_device, (use_cpu, quiet, cuda, metal, apple_silicon), choice),
    ensures
        choice == chosen_device(use_cpu, quiet, cuda, metal, apple_silicon),
        choice.0 is Cpu <==> use_cpu || !cuda && !metal,
        choice.0 is Cuda <==> !use_cpu && cuda,
        choice.0 is Metal <==> !use_cpu && !cuda && metal,
        choice.0 matches DeviceChoice::Cuda(n) ==> n == 0,
        choice.0 matches DeviceChoice::Metal(n) ==> n == 0,
        choice.1 is Some <==> !use_cpu && !cuda && !metal && !quiet,
        choice.1 == Some(DeviceNotice::BuildWithMetal) <==> choice.1 is Some && apple_silicon,
        choice.1 == Some(DeviceNotice::BuildWithCuda) <==> choice.1 is Some && !apple_silicon,
{
}

} // verus!
